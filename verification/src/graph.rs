//! The constraint-graph builder: breadth-first discovery of every
//! manifest reachable from the root through normal-kind declarations.
//!
//! The result is the discovery order: a duplicate-free sequence of
//! manifest indices, root first, closed under normal-kind dependencies.

use vstd::prelude::*;
use vstd::relations::injective;
use vstd::set_lib::{lemma_len_subset, lemma_int_range, set_int_range};
use crate::model::{
    DepKind, Manifest, find_manifest, lemma_find_manifest_from, spec_find_manifest,
};

verus! {

/// A duplicate-free sequence of indices below `n` has at most `n` elements.
pub proof fn lemma_distinct_indices_len(s: Seq<usize>, n: int)
    requires
        n >= 0,
        s.no_duplicates(),
        forall|k: int| 0 <= k < s.len() ==> (#[trigger] s[k] as int) < n,
    ensures
        s.len() <= n,
{
    let f = |u: usize| u as int;
    assert(injective(f));
    let t = s.map_values(f);
    s.lemma_no_duplicates_injective(f);
    t.unique_seq_to_set();
    assert(t.to_set().subset_of(set_int_range(0, n))) by {
        assert forall|e: int| t.to_set().contains(e) implies set_int_range(0, n).contains(e) by {
            let k = choose|k: int| 0 <= k < t.len() && t[k] == e;
            assert(s[k] as int == e);
        }
    }
    lemma_int_range(0, n);
    lemma_len_subset(t.to_set(), set_int_range(0, n));
}

/// The worklist invariant of the breadth-first walk.
pub open spec fn bfs_ok(ms: Seq<Manifest>, reach: Seq<usize>, i: int) -> bool {
    &&& 0 <= i <= reach.len()
    &&& reach.no_duplicates()
    &&& forall|k: int| 0 <= k < reach.len() ==> (#[trigger] reach[k] as int) < ms.len()
}

/// Appends, for each normal-kind declaration from `j` on, the index of the
/// declared package's manifest, unless already discovered; the name of
/// the first declaration whose manifest is missing is the error.
pub open spec fn push_deps(
    ms: Seq<Manifest>,
    reach: Seq<usize>,
    deps: Seq<crate::model::DependencyDeclaration>,
    j: int,
) -> Result<Seq<usize>, u64>
    decreases deps.len() - j,
{
    if j < 0 || j >= deps.len() {
        Ok(reach)
    } else if deps[j].kind != DepKind::Normal {
        push_deps(ms, reach, deps, j + 1)
    } else {
        match spec_find_manifest(ms, deps[j].name) {
            None => Err(deps[j].name),
            Some(t) => if reach.contains(t as usize) {
                push_deps(ms, reach, deps, j + 1)
            } else {
                push_deps(ms, reach.push(t as usize), deps, j + 1)
            },
        }
    }
}

/// `push_deps` keeps the prefix, distinctness and bounds of the worklist.
pub proof fn lemma_push_deps(
    ms: Seq<Manifest>,
    reach: Seq<usize>,
    deps: Seq<crate::model::DependencyDeclaration>,
    j: int,
)
    requires
        reach.no_duplicates(),
        forall|k: int| 0 <= k < reach.len() ==> (#[trigger] reach[k] as int) < ms.len(),
    ensures
        match push_deps(ms, reach, deps, j) {
            Ok(r2) => {
                &&& r2.len() >= reach.len()
                &&& r2.take(reach.len() as int) =~= reach
                &&& r2.no_duplicates()
                &&& forall|k: int| 0 <= k < r2.len() ==> (#[trigger] r2[k] as int) < ms.len()
            },
            Err(_) => true,
        },
    decreases deps.len() - j,
{
    if j < 0 || j >= deps.len() {
        assert(reach.take(reach.len() as int) =~= reach);
    } else if deps[j].kind != DepKind::Normal {
        lemma_push_deps(ms, reach, deps, j + 1);
    } else {
        match spec_find_manifest(ms, deps[j].name) {
            None => {},
            Some(t) => {
                lemma_find_manifest_from(ms, deps[j].name, 0);
                if reach.contains(t as usize) {
                    lemma_push_deps(ms, reach, deps, j + 1);
                } else {
                    let r1 = reach.push(t as usize);
                    assert(r1.no_duplicates()) by {
                        assert(forall|k: int| 0 <= k < reach.len() ==> reach[k] == r1[k]);
                    }
                    lemma_push_deps(ms, r1, deps, j + 1);
                    match push_deps(ms, r1, deps, j + 1) {
                        Ok(r2) => {
                            assert(r2.take(r1.len() as int) =~= r1);
                            assert(r2.take(reach.len() as int) =~= reach) by {
                                assert(forall|k: int|
                                    0 <= k < reach.len() ==> r2[k] == r1[k] && r1[k] == reach[k]);
                            }
                        },
                        Err(_) => {},
                    }
                }
            },
        }
    }
}

/// The breadth-first walk itself, processing the worklist from slot `i`.
pub open spec fn bfs_rec(ms: Seq<Manifest>, reach: Seq<usize>, i: int) -> Result<Seq<usize>, u64>
    decreases ms.len() - i,
    when bfs_ok(ms, reach, i)
    via bfs_rec_decreases
{
    if i >= reach.len() {
        Ok(reach)
    } else {
        match push_deps(ms, reach, ms[reach[i] as int].deps@, 0) {
            Err(name) => Err(name),
            Ok(r2) => bfs_rec(ms, r2, i + 1),
        }
    }
}

#[via_fn]
proof fn bfs_rec_decreases(ms: Seq<Manifest>, reach: Seq<usize>, i: int) {
    if i < reach.len() {
        lemma_distinct_indices_len(reach, ms.len() as int);
        lemma_push_deps(ms, reach, ms[reach[i] as int].deps@, 0);
    }
}

pub proof fn lemma_push_no_dup(s: Seq<usize>, t: usize)
    requires
        s.no_duplicates(),
        !s.contains(t),
    ensures
        s.push(t).no_duplicates(),
{
    let s2 = s.push(t);
    assert forall|p: int, q: int| 0 <= p < q < s2.len() implies s2[p] != s2[q] by {
        if q < s.len() {
        } else {
            assert(s2[q] == t);
            if s2[p] == t {
                assert(s[p] == t);
                assert(s.contains(t));
            }
        }
    }
}

/// Discovers every package reachable from the root manifest, in
/// breadth-first order; fails with the name of the first declared
/// package whose manifest is missing.
pub fn build_reach(ms: &Vec<Manifest>, root: usize) -> (r: Result<Vec<usize>, u64>)
    requires
        root < ms@.len(),
    ensures
        match r {
            Ok(reach) => {
                &&& bfs_rec(ms@, seq![root], 0) == Ok::<Seq<usize>, u64>(reach@)
                &&& reach@.len() >= 1 && reach@[0] == root
                &&& reach@.no_duplicates()
                &&& forall|k: int|
                    0 <= k < reach@.len() ==> (#[trigger] reach@[k] as int) < ms@.len()
            },
            Err(name) => bfs_rec(ms@, seq![root], 0) == Err::<Seq<usize>, u64>(name),
        },
{
    let mut reach: Vec<usize> = Vec::new();
    reach.push(root);
    let ghost reach0: Seq<usize> = seq![root];
    assert(reach@ =~= reach0);
    assert(bfs_ok(ms@, reach0, 0));
    let mut i: usize = 0;
    while i < reach.len()
        invariant
            root < ms@.len(),
            reach0 == seq![root],
            bfs_ok(ms@, reach@, i as int),
            reach@.len() >= 1 && reach@[0] == root,
            reach@.len() <= ms@.len(),
            bfs_rec(ms@, reach0, 0) == bfs_rec(ms@, reach@, i as int),
        decreases ms@.len() - i,
    {
        let mi = reach[i];
        let ghost reach_in = reach@;
        let ghost deps = ms@[mi as int].deps@;
        let mut j: usize = 0;
        while j < ms[mi].deps.len()
            invariant
                root < ms@.len(),
                reach0 == seq![root],
                (mi as int) < ms@.len(),
                mi == reach_in[i as int],
                deps == ms@[mi as int].deps@,
                j <= deps.len(),
                bfs_ok(ms@, reach_in, i as int),
                (i as int) < reach_in.len(),
                reach@.no_duplicates(),
                forall|k: int|
                    0 <= k < reach@.len() ==> (#[trigger] reach@[k] as int) < ms@.len(),
                push_deps(ms@, reach_in, deps, 0) == push_deps(ms@, reach@, deps, j as int),
                bfs_rec(ms@, reach0, 0) == bfs_rec(ms@, reach_in, i as int),
            decreases deps.len() - j,
        {
            let d = &ms[mi].deps[j];
            if matches!(d.kind, DepKind::Normal) {
                match find_manifest(ms, d.name) {
                    None => {
                        proof {
                            assert(push_deps(ms@, reach@, deps, j as int) == Err::<
                                Seq<usize>,
                                u64,
                            >(d.name));
                            assert(bfs_rec(ms@, reach_in, i as int) == Err::<
                                Seq<usize>,
                                u64,
                            >(d.name));
                        }
                        return Err(d.name);
                    },
                    Some(t) => {
                        let ghost reach_pre = reach@;
                        let mut seen = false;
                        let mut k: usize = 0;
                        while k < reach.len()
                            invariant
                                k <= reach@.len(),
                                reach@ == reach_pre,
                                seen == exists|q: int| 0 <= q < k && reach@[q] == t,
                            decreases reach@.len() - k,
                        {
                            if reach[k] == t {
                                seen = true;
                            }
                            k += 1;
                        }
                        assert(seen == reach@.contains(t));
                        if !seen {
                            proof {
                                lemma_push_no_dup(reach@, t);
                                lemma_find_manifest_from(ms@, d.name, 0);
                            }
                            reach.push(t);
                        }
                        proof {
                            assert(push_deps(ms@, reach_pre, deps, j as int) == push_deps(
                                ms@,
                                reach@,
                                deps,
                                j + 1,
                            ));
                        }
                    },
                }
            }
            j += 1;
        }
        proof {
            assert(push_deps(ms@, reach@, deps, j as int) == Ok::<Seq<usize>, u64>(reach@));
            assert(push_deps(ms@, reach_in, deps, 0) == Ok::<Seq<usize>, u64>(reach@));
            lemma_push_deps(ms@, reach_in, deps, 0);
            assert(reach@.take(reach_in.len() as int) =~= reach_in);
            assert(reach@[0] == reach_in[0]);
            assert(bfs_rec(ms@, reach_in, i as int) == bfs_rec(ms@, reach@, i + 1));
            lemma_distinct_indices_len(reach@, ms@.len() as int);
        }
        i += 1;
    }
    Ok(reach)
}

} // verus!
