//! Topological ordering of a package list along its dependency edges.
//!
//! An edge points from a package to each package it depends on, matched by
//! name.  A valid order places every dependency strictly before each of its
//! dependents; computing one doubles as the acyclicity check.

use vstd::prelude::*;
use vstd::seq_lib::*;
use vstd::set_lib::*;
use vstd::pervasive::VecAdditionalExecFns;
use crate::errors::{CargoError, ResolveError};
use crate::package::Package;

verus! {

/// A sequence of pairwise distinct integers drawn from `[0, n)` has at
/// most `n` elements.
pub proof fn lemma_distinct_bounded(s: Seq<int>, n: int)
    requires
        n >= 0,
        forall|a: int, b: int| 0 <= a < b < s.len() ==> s[a] != s[b],
        forall|i: int| 0 <= i < s.len() ==> 0 <= #[trigger] s[i] < n,
    ensures
        s.len() <= n,
{
    assert(s.no_duplicates()) by {
        assert forall|a: int, b: int|
            0 <= a < s.len() && 0 <= b < s.len() && a != b implies s[a] != s[b] by {
            if a < b {
            } else {
            }
        }
    }
    s.unique_seq_to_set();
    let rng = set_int_range(0, n);
    lemma_int_range(0, n);
    assert(s.to_set().subset_of(rng)) by {
        assert forall|x: int| s.to_set().contains(x) implies rng.contains(x) by {
            let i = choose|i: int| 0 <= i < s.len() && s[i] == x;
            assert(0 <= s[i] < n);
        }
    }
    lemma_len_subset(s.to_set(), rng);
}

/// In a permutation of `[0, n)` every index is hit: the list of values is
/// distinct, bounded and of full length, so leaving one value out would
/// squeeze `n` distinct values into `n - 1` slots.
pub proof fn lemma_permutation_hits(ord: Seq<usize>, n: int, j: int)
    requires
        ord.len() == n,
        forall|i: int| 0 <= i < ord.len() ==> (#[trigger] ord[i]) < n,
        forall|a: int, b: int| 0 <= a < b < ord.len() ==> ord[a] != ord[b],
        0 <= j < n,
    ensures
        exists|b: int| 0 <= b < ord.len() && ord[b] == j as usize,
{
    if forall|b: int| 0 <= b < ord.len() ==> (#[trigger] ord[b]) != j as usize {
        let s = Seq::new(
            ord.len(),
            |b: int|
                if (ord[b] as int) < j {
                    ord[b] as int
                } else {
                    ord[b] as int - 1
                },
        );
        assert forall|a: int, b: int| 0 <= a < b < s.len() implies s[a] != s[b] by {
            assert(ord[a] != ord[b]);
            assert(ord[a] as int != j && ord[b] as int != j);
        }
        assert forall|i: int| 0 <= i < s.len() implies 0 <= #[trigger] s[i] < n - 1 by {
            assert(ord[i] as int != j);
        }
        lemma_distinct_bounded(s, n - 1);
        assert(false);
    }
}

/// Whether `pkgs` admits any valid topological order at all: a
/// permutation in which every dependency precedes its dependents.  Its
/// negation is exactly a dependency cycle among the packages.
#[verifier::opaque]
pub open spec fn orderable(pkgs: Seq<Package>) -> bool {
    exists|ord: Seq<usize>|
        is_permutation(ord, pkgs.len()) && #[trigger] deps_precede(pkgs, ord)
}

/// A nonempty set of indices holding a property has a least member.
pub proof fn lemma_least_index(f: spec_fn(int) -> bool, w: int)
    requires
        0 <= w,
        f(w),
    ensures
        exists|p: int|
            0 <= p <= w && #[trigger] f(p) && (forall|q: int| 0 <= q < p ==> !(#[trigger] f(q))),
    decreases w,
{
    if exists|q: int| 0 <= q < w && #[trigger] f(q) {
        let q = choose|q: int| 0 <= q < w && #[trigger] f(q);
        lemma_least_index(f, q);
    } else {
        assert(0 <= w <= w && f(w) && (forall|q: int| 0 <= q < w ==> !(#[trigger] f(q))));
    }
}

/// Whether some package in `pkgs` is named `name`.
pub open spec fn name_present(pkgs: Seq<Package>, name: Seq<char>) -> bool {
    exists|i: int| 0 <= i < pkgs.len() && pkgs[i].name@ == name
}

/// The package standing at position `a` of `order`.
pub open spec fn pkg_at(pkgs: Seq<Package>, order: Seq<usize>, a: int) -> Package {
    pkgs[order[a] as int]
}

/// Whether a dependency on `name` is already discharged at position `a` of
/// `order`: either a package of that name stands strictly before `a`, or no
/// package of that name exists in `pkgs` at all (an edge can only point at
/// a package of the list).
pub open spec fn dep_placed_before(
    pkgs: Seq<Package>,
    order: Seq<usize>,
    a: int,
    name: Seq<char>,
) -> bool {
    (exists|b: int| 0 <= b < a && pkg_at(pkgs, order, b).name@ == name) || !name_present(
        pkgs,
        name,
    )
}

/// The ordering property: for every package placed at position `a`, every
/// dependency edge out of it points at a package placed strictly before
/// `a`.  This is exactly what a compile schedule must respect.
pub open spec fn deps_precede(pkgs: Seq<Package>, order: Seq<usize>) -> bool {
    forall|a: int, d: int|
        0 <= a < order.len() && 0 <= d < pkg_at(pkgs, order, a).dependencies@.len()
            ==> dep_placed_before(
            pkgs,
            order,
            a,
            (#[trigger] pkg_at(pkgs, order, a).dependencies@[d]).name@,
        )
}

/// Whether `order` lists each index below `n` exactly once.
pub open spec fn is_permutation(order: Seq<usize>, n: nat) -> bool {
    order.len() == n && (forall|i: int| 0 <= i < order.len() ==> (#[trigger] order[i]) < n) && (
    forall|i: int, j: int| 0 <= i < j < order.len() ==> order[i] != order[j])
}

/// Whether the package at index `i` could be placed next: every dependency
/// of it is already discharged at the end of `order`.
pub open spec fn pkg_ready(pkgs: Seq<Package>, order: Seq<usize>, i: int) -> bool {
    forall|d: int|
        0 <= d < pkgs[i].dependencies@.len() ==> dep_placed_before(
            pkgs,
            order,
            order.len() as int,
            (#[trigger] pkgs[i].dependencies@[d]).name@,
        )
}

/// Linear scan: is some package of `pkgs` named `name`?
pub(crate) fn name_in_packages(pkgs: &Vec<Package>, name: &String) -> (r: bool)
    ensures
        r == name_present(pkgs@, name@),
{
    let mut i: usize = 0;
    while i < pkgs.len()
        invariant
            0 <= i <= pkgs.len(),
            forall|j: int| 0 <= j < i ==> pkgs@[j].name@ != name@,
        decreases pkgs.len() - i,
    {
        if pkgs[i].name == *name {
            assert(pkgs@[i as int].name@ == name@);
            return true;
        }
        i += 1;
    }
    false
}

/// Linear scan: does a package named `name` already stand in `order`?
fn placed_in_order(pkgs: &Vec<Package>, order: &Vec<usize>, name: &String) -> (r: bool)
    requires
        forall|b: int| 0 <= b < order@.len() ==> (#[trigger] order@[b]) < pkgs@.len(),
    ensures
        r == exists|b: int|
            0 <= b < order@.len() && pkg_at(pkgs@, order@, b).name@ == name@,
{
    let mut b: usize = 0;
    while b < order.len()
        invariant
            0 <= b <= order.len(),
            forall|c: int| 0 <= c < order@.len() ==> (#[trigger] order@[c]) < pkgs@.len(),
            forall|c: int| 0 <= c < b ==> pkg_at(pkgs@, order@, c).name@ != name@,
        decreases order.len() - b,
    {
        let idx = order[b];
        if pkgs[idx].name == *name {
            assert(pkg_at(pkgs@, order@, b as int).name@ == name@);
            return true;
        }
        b += 1;
    }
    false
}

/// Whether every dependency of `pkgs[i]` is discharged by the packages
/// already placed in `order`.
fn ready(pkgs: &Vec<Package>, order: &Vec<usize>, i: usize) -> (r: bool)
    requires
        i < pkgs@.len(),
        forall|b: int| 0 <= b < order@.len() ==> (#[trigger] order@[b]) < pkgs@.len(),
    ensures
        r == pkg_ready(pkgs@, order@, i as int),
{
    let mut d: usize = 0;
    while d < pkgs[i].dependencies.len()
        invariant
            i < pkgs@.len(),
            forall|b: int| 0 <= b < order@.len() ==> (#[trigger] order@[b]) < pkgs@.len(),
            0 <= d <= pkgs@[i as int].dependencies@.len(),
            forall|e: int|
                0 <= e < d ==> dep_placed_before(
                    pkgs@,
                    order@,
                    order@.len() as int,
                    (#[trigger] pkgs@[i as int].dependencies@[e]).name@,
                ),
        decreases pkgs@[i as int].dependencies@.len() - d,
    {
        let name = &pkgs[i].dependencies[d].name;
        if !placed_in_order(pkgs, order, name) {
            if name_in_packages(pkgs, name) {
                assert(!dep_placed_before(
                    pkgs@,
                    order@,
                    order@.len() as int,
                    pkgs@[i as int].dependencies@[d as int].name@,
                ));
                return false;
            }
        }
        d += 1;
    }
    true
}

/// Computes a topological order over `pkgs`, as a list of indices.
///
/// On success the result is a permutation of the indices of `pkgs` in which
/// every dependency precedes its dependents.  The scan always places the
/// lowest-indexed ready package next, so the order is deterministic for a
/// given input.  When no order exists — the dependency edges contain a
/// cycle — the result is the cycle resolution error.
pub fn topo_order(pkgs: &Vec<Package>) -> (r: Result<Vec<usize>, CargoError>)
    ensures
        r matches Ok(order) ==> is_permutation(order@, pkgs@.len()) && deps_precede(
            pkgs@,
            order@,
        ),
        r matches Err(e) ==> e == (CargoError::Resolution { kind: ResolveError::Cycle })
            && !orderable(pkgs@),
        pkgs@.len() == 0 ==> r is Ok,
{
    let n = pkgs.len();
    let mut used: Vec<bool> = Vec::new();
    let mut k: usize = 0;
    while k < n
        invariant
            0 <= k <= n,
            used@.len() == k,
            forall|j: int| 0 <= j < k ==> !(#[trigger] used@[j]),
        decreases n - k,
    {
        used.push(false);
        k += 1;
    }
    let mut order: Vec<usize> = Vec::new();
    while order.len() < n
        invariant
            n == pkgs@.len(),
            used@.len() == n,
            order@.len() <= n,
            forall|b: int| 0 <= b < order@.len() ==> (#[trigger] order@[b]) < n,
            forall|b: int, c: int| 0 <= b < c < order@.len() ==> order@[b] != order@[c],
            forall|j: int|
                0 <= j < n
                    ==> ((#[trigger] used@[j]) <==> exists|b: int|
                        0 <= b < order@.len() && order@[b] == j),
            deps_precede(pkgs@, order@),
        decreases n - order.len(),
    {
        let mut found: Option<usize> = None;
        let mut i: usize = 0;
        while i < n && found.is_none()
            invariant
                n == pkgs@.len(),
                used@.len() == n,
                forall|b: int| 0 <= b < order@.len() ==> (#[trigger] order@[b]) < n,
                found matches Some(f) ==> f < n && !used@[f as int] && pkg_ready(
                    pkgs@,
                    order@,
                    f as int,
                ),
                found is None ==> i <= n && forall|j: int|
                    0 <= j < i ==> used@[j] || !(#[trigger] pkg_ready(pkgs@, order@, j)),
            decreases n - i,
        {
            if !used[i] {
                if ready(pkgs, &order, i) {
                    found = Some(i);
                }
            }
            i += 1;
        }
        match found {
            None => {
                proof {
                    lemma_no_order(pkgs@, order@, used@);
                }
                return Err(CargoError::Resolution { kind: ResolveError::Cycle });
            },
            Some(next) => {
                let ghost old_order_snap = order@;
                let ghost old_used_snap = used@;
                proof {
                    let old_order = order@;
                    assert forall|a: int, d: int|
                        0 <= a < old_order.push(next).len() && 0 <= d < pkg_at(
                            pkgs@,
                            old_order.push(next),
                            a,
                        ).dependencies@.len() implies dep_placed_before(
                        pkgs@,
                        old_order.push(next),
                        a,
                        (#[trigger] pkg_at(pkgs@, old_order.push(next), a).dependencies@[d]).name@,
                    ) by {
                        let newo = old_order.push(next);
                        assert(forall|b: int|
                            0 <= b < old_order.len() ==> newo[b] == old_order[b]);
                        if a < old_order.len() {
                            assert(pkg_at(pkgs@, newo, a) == pkg_at(pkgs@, old_order, a));
                            let nm = pkg_at(pkgs@, old_order, a).dependencies@[d].name@;
                            assert(dep_placed_before(pkgs@, old_order, a, nm));
                            if exists|b: int|
                                0 <= b < a && pkg_at(pkgs@, old_order, b).name@ == nm {
                                let b = choose|b: int|
                                    0 <= b < a && pkg_at(pkgs@, old_order, b).name@ == nm;
                                assert(pkg_at(pkgs@, newo, b).name@ == nm);
                            }
                        } else {
                            assert(a == old_order.len());
                            assert(pkg_at(pkgs@, newo, a) == pkgs@[next as int]);
                            let nm = pkg_at(pkgs@, newo, a).dependencies@[d].name@;
                            assert(dep_placed_before(pkgs@, old_order, old_order.len() as int, nm));
                            if exists|b: int|
                                0 <= b < old_order.len() && pkg_at(pkgs@, old_order, b).name@
                                    == nm {
                                let b = choose|b: int|
                                    0 <= b < old_order.len() && pkg_at(pkgs@, old_order, b).name@
                                        == nm;
                                assert(pkg_at(pkgs@, newo, b).name@ == nm);
                            }
                        }
                    }
                }
                order.push(next);
                used.set(next, true);
                proof {
                    assert forall|j: int| 0 <= j < n implies ((#[trigger] used@[j]) <==> exists|b: int|
                        0 <= b < order@.len() && order@[b] == j) by {
                        if j == next as int {
                            assert(order@[order@.len() - 1] == next);
                        } else {
                            assert(used@[j] == old_used_snap[j]);
                            if exists|b: int| 0 <= b < order@.len() && order@[b] == j {
                                let b = choose|b: int| 0 <= b < order@.len() && order@[b] == j;
                                assert(b < old_order_snap.len());
                                assert(old_order_snap[b] == j);
                            }
                            if exists|b: int| 0 <= b < old_order_snap.len() && old_order_snap[b]
                                == j {
                                let b = choose|b: int|
                                    0 <= b < old_order_snap.len() && old_order_snap[b] == j;
                                assert(order@[b] == j);
                            }
                        }
                    }
                }
            },
        }
    }
    Ok(order)
}

/// When a partial order respects every edge, not all packages are placed,
/// and no unplaced package is ready, no valid full order exists: the
/// earliest unplaced package of any candidate order would have had a
/// dependency on an unplaced name, yet the candidate order discharges that
/// dependency only through packages that are all placed.
proof fn lemma_no_order(pkgs: Seq<Package>, placed: Seq<usize>, used: Seq<bool>)
    requires
        pkgs.len() <= usize::MAX,
        used.len() == pkgs.len(),
        placed.len() < pkgs.len(),
        forall|b: int| 0 <= b < placed.len() ==> (#[trigger] placed[b]) < pkgs.len(),
        forall|b: int, c: int| 0 <= b < c < placed.len() ==> placed[b] != placed[c],
        forall|j: int|
            0 <= j < pkgs.len() ==> ((#[trigger] used[j]) <==> exists|b: int|
                0 <= b < placed.len() && placed[b] == j),
        forall|j: int|
            0 <= j < pkgs.len() ==> used[j] || !(#[trigger] pkg_ready(pkgs, placed, j)),
    ensures
        !orderable(pkgs),
{
    reveal(orderable);
    let n = pkgs.len() as int;
    assert forall|vord: Seq<usize>| !(is_permutation(vord, pkgs.len()) && #[trigger] deps_precede(
        pkgs,
        vord,
    )) by {
        if is_permutation(vord, pkgs.len()) && deps_precede(pkgs, vord) {
            // some package is unplaced, else the placed list would hold
            // n distinct indices in fewer than n slots
            assert(exists|j: int| 0 <= j < n && !used[j]) by {
                if forall|j: int| 0 <= j < n ==> #[trigger] used[j] {
                    let s = Seq::new(
                        pkgs.len(),
                        |j: int|
                            choose|b: int| 0 <= b < placed.len() && placed[b] == j as usize,
                    );
                    assert forall|j: int| 0 <= j < n implies 0 <= #[trigger] s[j]
                        < placed.len() as int && placed[s[j]] == j as usize by {
                        assert(used[j]);
                        let b = choose|b: int|
                            0 <= b < placed.len() && placed[b] == j as usize;
                        assert(s[j] == b);
                    }
                    assert forall|a: int, b: int| 0 <= a < b < s.len() implies s[a] != s[b] by {
                        assert(placed[s[a]] == a as usize);
                        assert(placed[s[b]] == b as usize);
                    }
                    lemma_distinct_bounded(s, placed.len() as int);
                    assert(false);
                }
            }
            let j0 = choose|j: int| 0 <= j < n && !used[j];
            lemma_permutation_hits(vord, n, j0);
            let p0 = choose|b: int| 0 <= b < vord.len() && vord[b] == j0 as usize;
            assert(vord[p0] as int == j0);
            // the earliest position of the candidate order holding an
            // unplaced package
            let f = |p: int| 0 <= p < vord.len() && !used[vord[p] as int];
            assert(f(p0));
            lemma_least_index(f, p0);
            let p = choose|p: int|
                0 <= p <= p0 && #[trigger] f(p) && (forall|q: int| 0 <= q < p ==> !(#[trigger] f(
                    q,
                )));
            let i0 = vord[p] as int;
            assert(!used[i0]);
            assert(!pkg_ready(pkgs, placed, i0));
            let dd = choose|dd: int|
                0 <= dd < pkgs[i0].dependencies@.len() && !dep_placed_before(
                    pkgs,
                    placed,
                    placed.len() as int,
                    (#[trigger] pkgs[i0].dependencies@[dd]).name@,
                );
            let nm = pkgs[i0].dependencies@[dd].name@;
            assert(name_present(pkgs, nm));
            // the candidate order discharges this dependency before p
            assert(pkg_at(pkgs, vord, p) == pkgs[i0]);
            assert(pkg_at(pkgs, vord, p).dependencies@[dd].name@ == nm);
            assert(dep_placed_before(pkgs, vord, p, nm));
            let b = choose|b: int| 0 <= b < p && pkg_at(pkgs, vord, b).name@ == nm;
            // everything before p is placed, so a placed package holds the
            // name after all
            assert(!f(b));
            assert(used[vord[b] as int]);
            let b2 = choose|b2: int| 0 <= b2 < placed.len() && placed[b2] == vord[b];
            assert(pkg_at(pkgs, placed, b2).name@ == nm);
            assert(false);
        }
    }
}

} // verus!
