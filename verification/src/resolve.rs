//! The version resolver: intersects every requirement contributed
//! against a package identity and selects the highest available version
//! satisfying all of them.
//!
//! Requirements for one name are unified per compatibility class: when
//! the platform policy permits coexistence, major-incompatible classes
//! resolve to separate identities; otherwise every requirement for a
//! name must be satisfied by one single version.

use vstd::prelude::*;
use crate::model::{
    DepKind, DependencyDeclaration, Manifest, OracleEntry, PackageIdentity, ResolutionError,
    spec_find_manifest, find_manifest,
};
use crate::model::Origin;
use crate::semver::{Version, VersionReq, spec_compatible, compatible};

verus! {

/// All requirements contributed against one unification key.
#[derive(Clone, Debug)]
pub struct ReqGroup {
    pub name: u64,
    pub origin: Origin,
    /// Names of the contributing requirers, in discovery order.
    pub requirers: Vec<u64>,
    /// The contributed ranges, parallel to `requirers`.
    pub reqs: Vec<VersionReq>,
}

#[verifier::ext_equal]
pub struct GroupModel {
    pub name: u64,
    pub origin: Origin,
    pub requirers: Seq<u64>,
    pub reqs: Seq<VersionReq>,
}

impl View for ReqGroup {
    type V = GroupModel;

    open spec fn view(&self) -> GroupModel {
        GroupModel {
            name: self.name,
            origin: self.origin,
            requirers: self.requirers@,
            reqs: self.reqs@,
        }
    }
}

pub open spec fn group_views(gs: Seq<ReqGroup>) -> Seq<GroupModel> {
    gs.map_values(|g: ReqGroup| g@)
}

/// Whether a declaration unifies into a group: same name and origin,
/// and, when the platform permits class coexistence, the same
/// compatibility class.
pub open spec fn decl_in_group(g: GroupModel, d: DependencyDeclaration, multi: bool) -> bool {
    &&& g.name == d.name
    &&& g.origin == d.origin
    &&& (multi ==> g.reqs.len() > 0 && spec_compatible(g.reqs[0].spec_floor(), d.req.spec_floor()))
}

pub open spec fn find_group_from(
    gs: Seq<GroupModel>,
    d: DependencyDeclaration,
    multi: bool,
    k: int,
) -> Option<int>
    decreases gs.len() - k,
{
    if k < 0 || k >= gs.len() {
        None
    } else if decl_in_group(gs[k], d, multi) {
        Some(k)
    } else {
        find_group_from(gs, d, multi, k + 1)
    }
}

/// Adds one declaration: into the first group it unifies with, or as a
/// fresh group at the end.
pub open spec fn add_decl(
    gs: Seq<GroupModel>,
    requirer: u64,
    d: DependencyDeclaration,
    multi: bool,
) -> Seq<GroupModel> {
    match find_group_from(gs, d, multi, 0) {
        Some(k) => gs.update(
            k,
            GroupModel {
                name: gs[k].name,
                origin: gs[k].origin,
                requirers: gs[k].requirers.push(requirer),
                reqs: gs[k].reqs.push(d.req),
            },
        ),
        None => gs.push(
            GroupModel {
                name: d.name,
                origin: d.origin,
                requirers: seq![requirer],
                reqs: seq![d.req],
            },
        ),
    }
}

/// The first `j` declarations of one requirer, folded in.
pub open spec fn add_decls(
    gs: Seq<GroupModel>,
    requirer: u64,
    deps: Seq<DependencyDeclaration>,
    multi: bool,
    j: int,
) -> Seq<GroupModel>
    decreases j,
{
    if j <= 0 || j > deps.len() {
        gs
    } else {
        let pre = add_decls(gs, requirer, deps, multi, j - 1);
        if deps[j - 1].kind != DepKind::Normal {
            pre
        } else {
            add_decl(pre, requirer, deps[j - 1], multi)
        }
    }
}

/// The groups contributed by the first `i` discovered packages.
pub open spec fn groups_upto(
    ms: Seq<Manifest>,
    reach: Seq<usize>,
    multi: bool,
    i: int,
) -> Seq<GroupModel>
    decreases i,
{
    if i <= 0 || i > reach.len() {
        Seq::empty()
    } else {
        let pre = groups_upto(ms, reach, multi, i - 1);
        let m = ms[reach[i - 1] as int];
        add_decls(pre, m.name, m.deps@, multi, m.deps@.len() as int)
    }
}

pub open spec fn spec_groups(ms: Seq<Manifest>, reach: Seq<usize>, multi: bool) -> Seq<
    GroupModel,
> {
    groups_upto(ms, reach, multi, reach.len() as int)
}

/// First oracle entry for a name.
pub open spec fn find_oracle_from(os: Seq<OracleEntry>, name: u64, k: int) -> Option<int>
    decreases os.len() - k,
{
    if k < 0 || k >= os.len() {
        None
    } else if os[k].name == name {
        Some(k)
    } else {
        find_oracle_from(os, name, k + 1)
    }
}

/// The versions the oracle offers for a name, in its order.
pub open spec fn spec_versions_of(os: Seq<OracleEntry>, name: u64) -> Seq<Version> {
    match find_oracle_from(os, name, 0) {
        None => Seq::empty(),
        Some(k) => os[k].versions@,
    }
}

pub open spec fn matches_all(reqs: Seq<VersionReq>, v: Version) -> bool {
    forall|k: int| 0 <= k < reqs.len() ==> (#[trigger] reqs[k]).spec_matches(v)
}

/// The highest version among the first `j` offered that satisfies every
/// requirement; ties between equal versions keep the later offer.
pub open spec fn best_upto(vs: Seq<Version>, reqs: Seq<VersionReq>, j: int) -> Option<Version>
    decreases j,
{
    if j <= 0 || j > vs.len() {
        None
    } else {
        let prev = best_upto(vs, reqs, j - 1);
        let v = vs[j - 1];
        if matches_all(reqs, v) && (prev is None || prev->0.spec_le(v)) {
            Some(v)
        } else {
            prev
        }
    }
}

pub open spec fn spec_best(os: Seq<OracleEntry>, g: GroupModel) -> Option<Version> {
    best_upto(spec_versions_of(os, g.name), g.reqs, spec_versions_of(os, g.name).len() as int)
}

/// The selected version is offered, satisfies every contributed range,
/// and no higher offered version does; `None` means no offered version
/// satisfies the whole intersection.
pub proof fn lemma_best_props(vs: Seq<Version>, reqs: Seq<VersionReq>, j: int)
    requires
        0 <= j <= vs.len(),
    ensures
        match best_upto(vs, reqs, j) {
            Some(v) => {
                &&& vs.contains(v)
                &&& matches_all(reqs, v)
                &&& forall|k: int| 0 <= k < j && matches_all(reqs, #[trigger] vs[k]) ==> vs[k].spec_le(v)
            },
            None => forall|k: int| 0 <= k < j ==> !matches_all(reqs, #[trigger] vs[k]),
        },
    decreases j,
{
    if j > 0 {
        lemma_best_props(vs, reqs, j - 1);
        if best_upto(vs, reqs, j) is Some {
            assert(vs.contains(best_upto(vs, reqs, j)->0)) by {
                let v = best_upto(vs, reqs, j)->0;
                if matches_all(reqs, vs[j - 1]) && (best_upto(vs, reqs, j - 1) is None
                    || best_upto(vs, reqs, j - 1)->0.spec_le(vs[j - 1])) {
                    assert(v == vs[j - 1]);
                }
            }
        }
    }
}

/// Parallel requirer and range lists, each group with at least one
/// contribution.
pub open spec fn wf_groups(gs: Seq<GroupModel>) -> bool {
    forall|k: int|
        0 <= k < gs.len() ==> (#[trigger] gs[k]).reqs.len() == gs[k].requirers.len()
            && gs[k].reqs.len() >= 1
}

/// One group unifying with the declaration holds this requirer and its
/// range side by side.
pub open spec fn group_records(
    g: GroupModel,
    requirer: u64,
    d: DependencyDeclaration,
    multi: bool,
) -> bool {
    &&& decl_in_group(g, d, multi)
    &&& exists|p: int|
        0 <= p < g.requirers.len() && p < g.reqs.len() && (#[trigger] g.requirers[p]) == requirer
            && g.reqs[p] == d.req
}

pub open spec fn groups_record(
    gs: Seq<GroupModel>,
    requirer: u64,
    d: DependencyDeclaration,
    multi: bool,
) -> bool {
    exists|k: int| 0 <= k < gs.len() && group_records(#[trigger] gs[k], requirer, d, multi)
}

/// Folding one declaration in records it and keeps every earlier record
/// and the groups' shape.
proof fn lemma_add_decl_records(
    gs: Seq<GroupModel>,
    requirer: u64,
    d: DependencyDeclaration,
    multi: bool,
)
    requires
        wf_groups(gs),
        d.kind == DepKind::Normal,
    ensures
        wf_groups(add_decl(gs, requirer, d, multi)),
        groups_record(add_decl(gs, requirer, d, multi), requirer, d, multi),
        forall|r0: u64, d0: DependencyDeclaration|
            #[trigger] groups_record(gs, r0, d0, multi) ==> groups_record(
                add_decl(gs, requirer, d, multi),
                r0,
                d0,
                multi,
            ),
{
    let gs2 = add_decl(gs, requirer, d, multi);
    match find_group_from(gs, d, multi, 0) {
        Some(k) => {
            lemma_find_group_hit(gs, d, multi, 0);
            let g = gs[k];
            let g2 = gs2[k];
            assert(g2.requirers == g.requirers.push(requirer));
            assert(g2.reqs == g.reqs.push(d.req));
            assert(g2.reqs[0] == g.reqs[0]);
            let p = g.requirers.len() as int;
            assert(g2.requirers[p] == requirer && g2.reqs[p] == d.req);
            assert(group_records(g2, requirer, d, multi));
            assert forall|r0: u64, d0: DependencyDeclaration|
                #[trigger] groups_record(gs, r0, d0, multi) implies groups_record(
                gs2,
                r0,
                d0,
                multi,
            ) by {
                let k0 = choose|k0: int|
                    0 <= k0 < gs.len() && group_records(#[trigger] gs[k0], r0, d0, multi);
                if k0 == k {
                    let p0 = choose|p0: int|
                        0 <= p0 < g.requirers.len() && p0 < g.reqs.len() && (#[trigger] g
                            .requirers[p0]) == r0 && g.reqs[p0] == d0.req;
                    assert(g2.requirers[p0] == r0 && g2.reqs[p0] == d0.req);
                    assert(group_records(gs2[k0], r0, d0, multi));
                } else {
                    assert(gs2[k0] == gs[k0]);
                }
            }
        },
        None => {
            let g2 = gs2[gs.len() as int];
            crate::semver::lemma_compatible_equivalence(
                d.req.spec_floor(),
                d.req.spec_floor(),
                d.req.spec_floor(),
            );
            assert(g2.requirers[0] == requirer && g2.reqs[0] == d.req);
            assert(group_records(g2, requirer, d, multi));
            assert forall|r0: u64, d0: DependencyDeclaration|
                #[trigger] groups_record(gs, r0, d0, multi) implies groups_record(
                gs2,
                r0,
                d0,
                multi,
            ) by {
                let k0 = choose|k0: int|
                    0 <= k0 < gs.len() && group_records(#[trigger] gs[k0], r0, d0, multi);
                assert(gs2[k0] == gs[k0]);
            }
        },
    }
}

proof fn lemma_find_group_hit(gs: Seq<GroupModel>, d: DependencyDeclaration, multi: bool, k: int)
    requires
        0 <= k <= gs.len(),
    ensures
        match find_group_from(gs, d, multi, k) {
            Some(j) => k <= j < gs.len() && decl_in_group(gs[j], d, multi),
            None => true,
        },
    decreases gs.len() - k,
{
    if k < gs.len() && !decl_in_group(gs[k], d, multi) {
        lemma_find_group_hit(gs, d, multi, k + 1);
    }
}

/// Every normal declaration folded in so far is recorded.
proof fn lemma_add_decls_records(
    gs: Seq<GroupModel>,
    requirer: u64,
    deps: Seq<DependencyDeclaration>,
    multi: bool,
    j: int,
)
    requires
        wf_groups(gs),
        0 <= j <= deps.len(),
    ensures
        wf_groups(add_decls(gs, requirer, deps, multi, j)),
        forall|j0: int|
            0 <= j0 < j && (#[trigger] deps[j0]).kind == DepKind::Normal ==> groups_record(
                add_decls(gs, requirer, deps, multi, j),
                requirer,
                deps[j0],
                multi,
            ),
        forall|r0: u64, d0: DependencyDeclaration|
            #[trigger] groups_record(gs, r0, d0, multi) ==> groups_record(
                add_decls(gs, requirer, deps, multi, j),
                r0,
                d0,
                multi,
            ),
    decreases j,
{
    if j > 0 {
        lemma_add_decls_records(gs, requirer, deps, multi, j - 1);
        let pre = add_decls(gs, requirer, deps, multi, j - 1);
        if deps[j - 1].kind == DepKind::Normal {
            lemma_add_decl_records(pre, requirer, deps[j - 1], multi);
        }
    }
}

/// No declaration unifies with two groups: distinct groups differ in
/// name or origin, or hold incompatible representative classes.
pub open spec fn groups_separated(gs: Seq<GroupModel>, multi: bool) -> bool {
    forall|k1: int, k2: int|
        0 <= k1 < k2 < gs.len() ==> !((#[trigger] gs[k1]).name == (#[trigger] gs[k2]).name
            && gs[k1].origin == gs[k2].origin && (multi ==> spec_compatible(
            gs[k1].reqs[0].spec_floor(),
            gs[k2].reqs[0].spec_floor(),
        )))
}

proof fn lemma_find_group_none(gs: Seq<GroupModel>, d: DependencyDeclaration, multi: bool, k: int)
    requires
        0 <= k <= gs.len(),
        find_group_from(gs, d, multi, k) is None,
    ensures
        forall|j: int| k <= j < gs.len() ==> !decl_in_group(#[trigger] gs[j], d, multi),
    decreases gs.len() - k,
{
    if k < gs.len() {
        lemma_find_group_none(gs, d, multi, k + 1);
    }
}

proof fn lemma_add_decl_separated(
    gs: Seq<GroupModel>,
    requirer: u64,
    d: DependencyDeclaration,
    multi: bool,
)
    requires
        wf_groups(gs),
        groups_separated(gs, multi),
    ensures
        groups_separated(add_decl(gs, requirer, d, multi), multi),
{
    let gs2 = add_decl(gs, requirer, d, multi);
    match find_group_from(gs, d, multi, 0) {
        Some(k) => {
            lemma_find_group_hit(gs, d, multi, 0);
            assert forall|k1: int, k2: int| 0 <= k1 < k2 < gs2.len() implies !((
            #[trigger] gs2[k1]).name == (#[trigger] gs2[k2]).name && gs2[k1].origin
                == gs2[k2].origin && (multi ==> spec_compatible(
                gs2[k1].reqs[0].spec_floor(),
                gs2[k2].reqs[0].spec_floor(),
            ))) by {
                assert(gs2[k1].name == gs[k1].name && gs2[k1].origin == gs[k1].origin);
                assert(gs2[k2].name == gs[k2].name && gs2[k2].origin == gs[k2].origin);
                assert(gs2[k1].reqs[0] == gs[k1].reqs[0]);
                assert(gs2[k2].reqs[0] == gs[k2].reqs[0]);
            }
        },
        None => {
            lemma_find_group_none(gs, d, multi, 0);
            assert forall|k1: int, k2: int| 0 <= k1 < k2 < gs2.len() implies !((
            #[trigger] gs2[k1]).name == (#[trigger] gs2[k2]).name && gs2[k1].origin
                == gs2[k2].origin && (multi ==> spec_compatible(
                gs2[k1].reqs[0].spec_floor(),
                gs2[k2].reqs[0].spec_floor(),
            ))) by {
                if k2 == gs.len() {
                    assert(!decl_in_group(gs[k1], d, multi));
                    assert(gs2[k2].name == d.name && gs2[k2].origin == d.origin);
                    assert(gs2[k2].reqs[0] == d.req);
                } else {
                    assert(gs2[k1] == gs[k1] && gs2[k2] == gs[k2]);
                }
            }
        },
    }
}

proof fn lemma_add_decls_separated(
    gs: Seq<GroupModel>,
    requirer: u64,
    deps: Seq<DependencyDeclaration>,
    multi: bool,
    j: int,
)
    requires
        wf_groups(gs),
        groups_separated(gs, multi),
        0 <= j <= deps.len(),
    ensures
        groups_separated(add_decls(gs, requirer, deps, multi, j), multi),
    decreases j,
{
    if j > 0 {
        lemma_add_decls_separated(gs, requirer, deps, multi, j - 1);
        lemma_add_decls_records(gs, requirer, deps, multi, j - 1);
        let pre = add_decls(gs, requirer, deps, multi, j - 1);
        if deps[j - 1].kind == DepKind::Normal {
            lemma_add_decl_separated(pre, requirer, deps[j - 1], multi);
        }
    }
}

/// The discovered groups are pairwise non-unifiable.
pub proof fn lemma_groups_separated(ms: Seq<Manifest>, reach: Seq<usize>, multi: bool, i: int)
    requires
        0 <= i <= reach.len(),
        forall|k: int| 0 <= k < reach.len() ==> (#[trigger] reach[k] as int) < ms.len(),
    ensures
        groups_separated(groups_upto(ms, reach, multi, i), multi),
    decreases i,
{
    if i > 0 {
        lemma_groups_separated(ms, reach, multi, i - 1);
        lemma_groups_complete(ms, reach, multi, i - 1);
        let pre = groups_upto(ms, reach, multi, i - 1);
        let m = ms[reach[i - 1] as int];
        lemma_add_decls_separated(pre, m.name, m.deps@, multi, m.deps@.len() as int);
    }
}

/// A declaration unifies with at most one group.
pub proof fn lemma_unifies_unique(
    gs: Seq<GroupModel>,
    multi: bool,
    k1: int,
    k2: int,
    d: DependencyDeclaration,
)
    requires
        wf_groups(gs),
        groups_separated(gs, multi),
        0 <= k1 < gs.len(),
        0 <= k2 < gs.len(),
        decl_in_group(gs[k1], d, multi),
        decl_in_group(gs[k2], d, multi),
    ensures
        k1 == k2,
{
    if k1 != k2 {
        if multi {
            crate::semver::lemma_compatible_equivalence(
                gs[k1].reqs[0].spec_floor(),
                d.req.spec_floor(),
                gs[k2].reqs[0].spec_floor(),
            );
            crate::semver::lemma_compatible_equivalence(
                gs[k2].reqs[0].spec_floor(),
                d.req.spec_floor(),
                gs[k1].reqs[0].spec_floor(),
            );
        }
    }
}

/// Conflict context is complete: every requirer whose normal-kind
/// declaration was discovered contributed its range to a group the
/// declaration unifies with, so an unsatisfiable intersection names
/// every contributor.
pub proof fn lemma_groups_complete(
    ms: Seq<Manifest>,
    reach: Seq<usize>,
    multi: bool,
    i: int,
)
    requires
        0 <= i <= reach.len(),
        forall|k: int| 0 <= k < reach.len() ==> (#[trigger] reach[k] as int) < ms.len(),
    ensures
        wf_groups(groups_upto(ms, reach, multi, i)),
        forall|i0: int, j0: int|
            0 <= i0 < i && 0 <= j0 < ms[reach[i0] as int].deps@.len()
                && (#[trigger] ms[reach[i0] as int].deps@[j0]).kind == DepKind::Normal
                ==> groups_record(
                groups_upto(ms, reach, multi, i),
                ms[reach[i0] as int].name,
                ms[reach[i0] as int].deps@[j0],
                multi,
            ),
    decreases i,
{
    if i > 0 {
        lemma_groups_complete(ms, reach, multi, i - 1);
        let pre = groups_upto(ms, reach, multi, i - 1);
        let m = ms[reach[i - 1] as int];
        lemma_add_decls_records(pre, m.name, m.deps@, multi, m.deps@.len() as int);
    }
}

/// A resolved node of the graph: its identity and its manifest's index.
#[derive(Clone, Copy, Debug, PartialEq, Eq, Structural, Hash)]
pub struct ResolvedPackage {
    pub identity: PackageIdentity,
    pub mi: usize,
}

/// A spec-level account of why resolution failed.
pub enum ResolveIssue {
    /// Index of the group whose intersection no offered version satisfies.
    Unsat(int),
    /// A group's name has no manifest.
    NoManifest(u64),
}

/// The root node of the resolved graph.
pub open spec fn spec_root_package(ms: Seq<Manifest>, root: usize) -> ResolvedPackage {
    ResolvedPackage {
        identity: PackageIdentity {
            name: ms[root as int].name,
            version: ms[root as int].version,
            origin: ms[root as int].origin,
        },
        mi: root,
    }
}

/// One resolved node per group, in group order, or the first failure.
pub open spec fn mk_packages(
    ms: Seq<Manifest>,
    gs: Seq<GroupModel>,
    os: Seq<OracleEntry>,
    k: int,
) -> Result<Seq<ResolvedPackage>, ResolveIssue>
    decreases k,
{
    if k <= 0 || k > gs.len() {
        Ok(Seq::empty())
    } else {
        match mk_packages(ms, gs, os, k - 1) {
            Err(e) => Err(e),
            Ok(ps) => {
                let g = gs[k - 1];
                match spec_find_manifest(ms, g.name) {
                    None => Err(ResolveIssue::NoManifest(g.name)),
                    Some(mi) => match spec_best(os, g) {
                        None => Err(ResolveIssue::Unsat(k - 1)),
                        Some(v) => Ok(
                            ps.push(
                                ResolvedPackage {
                                    identity: PackageIdentity {
                                        name: g.name,
                                        version: v,
                                        origin: g.origin,
                                    },
                                    mi: mi as usize,
                                },
                            ),
                        ),
                    },
                }
            },
        }
    }
}

pub(crate) fn copy_u64s(v: &Vec<u64>) -> (r: Vec<u64>)
    ensures
        r@ == v@,
{
    let mut r: Vec<u64> = Vec::new();
    let mut k: usize = 0;
    while k < v.len()
        invariant
            k <= v@.len(),
            r@ == v@.take(k as int),
        decreases v@.len() - k,
    {
        r.push(v[k]);
        assert(r@ =~= v@.take(k + 1));
        k += 1;
    }
    assert(r@ =~= v@);
    r
}

fn copy_reqs(v: &Vec<VersionReq>) -> (r: Vec<VersionReq>)
    ensures
        r@ == v@,
{
    let mut r: Vec<VersionReq> = Vec::new();
    let mut k: usize = 0;
    while k < v.len()
        invariant
            k <= v@.len(),
            r@ == v@.take(k as int),
        decreases v@.len() - k,
    {
        r.push(v[k]);
        assert(r@ =~= v@.take(k + 1));
        k += 1;
    }
    assert(r@ =~= v@);
    r
}

fn find_group(gs: &Vec<ReqGroup>, d: &DependencyDeclaration, multi: bool) -> (r: Option<usize>)
    ensures
        match r {
            Some(k) => (k as int) < gs@.len() && find_group_from(group_views(gs@), *d, multi, 0)
                == Some(k as int),
            None => find_group_from(group_views(gs@), *d, multi, 0) is None,
        },
{
    let mut k: usize = 0;
    while k < gs.len()
        invariant
            k <= gs@.len(),
            find_group_from(group_views(gs@), *d, multi, 0) == find_group_from(
                group_views(gs@),
                *d,
                multi,
                k as int,
            ),
        decreases gs@.len() - k,
    {
        let g = &gs[k];
        let hit = g.name == d.name && g.origin == d.origin && (!multi || (g.reqs.len() > 0
            && compatible(&g.reqs[0].floor(), &d.req.floor())));
        assert(hit == decl_in_group(group_views(gs@)[k as int], *d, multi));
        if hit {
            return Some(k);
        }
        k += 1;
    }
    None
}

fn matches_all_exec(reqs: &Vec<VersionReq>, v: &Version) -> (r: bool)
    ensures
        r == matches_all(reqs@, *v),
{
    let mut k: usize = 0;
    while k < reqs.len()
        invariant
            k <= reqs@.len(),
            forall|j: int| 0 <= j < k ==> (#[trigger] reqs@[j]).spec_matches(*v),
        decreases reqs@.len() - k,
    {
        if !reqs[k].matches(v) {
            return false;
        }
        k += 1;
    }
    true
}

fn best_exec(vs: &Vec<Version>, reqs: &Vec<VersionReq>) -> (r: Option<Version>)
    ensures
        r == best_upto(vs@, reqs@, vs@.len() as int),
{
    let mut cur: Option<Version> = None;
    let mut j: usize = 0;
    while j < vs.len()
        invariant
            j <= vs@.len(),
            cur == best_upto(vs@, reqs@, j as int),
        decreases vs@.len() - j,
    {
        let v = vs[j];
        if matches_all_exec(reqs, &v) {
            let take = match &cur {
                None => true,
                Some(w) => w.le(&v),
            };
            if take {
                cur = Some(v);
            }
        }
        assert(cur == best_upto(vs@, reqs@, j + 1));
        j += 1;
    }
    cur
}

fn find_oracle(os: &Vec<OracleEntry>, name: u64) -> (r: Option<usize>)
    ensures
        match r {
            Some(k) => (k as int) < os@.len() && find_oracle_from(os@, name, 0) == Some(
                k as int,
            ),
            None => find_oracle_from(os@, name, 0) is None,
        },
{
    let mut k: usize = 0;
    while k < os.len()
        invariant
            k <= os@.len(),
            find_oracle_from(os@, name, 0) == find_oracle_from(os@, name, k as int),
        decreases os@.len() - k,
    {
        if os[k].name == name {
            return Some(k);
        }
        k += 1;
    }
    None
}

/// An error met at step `k` persists to the end of the fold.
proof fn lemma_mk_err(
    ms: Seq<Manifest>,
    gs: Seq<GroupModel>,
    os: Seq<OracleEntry>,
    k: int,
    n: int,
)
    requires
        0 <= k <= n <= gs.len(),
        mk_packages(ms, gs, os, k) is Err,
    ensures
        mk_packages(ms, gs, os, n) == mk_packages(ms, gs, os, k),
    decreases n - k,
{
    if n > k {
        lemma_mk_err(ms, gs, os, k, n - 1);
    }
}

/// Collects the requirement groups contributed by every discovered
/// package, in discovery order.
pub fn collect_groups(ms: &Vec<Manifest>, reach: &Vec<usize>, multi: bool) -> (r: Vec<ReqGroup>)
    requires
        forall|k: int| 0 <= k < reach@.len() ==> (#[trigger] reach@[k] as int) < ms@.len(),
    ensures
        group_views(r@) == spec_groups(ms@, reach@, multi),
{
    let mut groups: Vec<ReqGroup> = Vec::new();
    assert(group_views(groups@) =~= groups_upto(ms@, reach@, multi, 0));
    let mut i: usize = 0;
    while i < reach.len()
        invariant
            i <= reach@.len(),
            forall|k: int| 0 <= k < reach@.len() ==> (#[trigger] reach@[k] as int) < ms@.len(),
            group_views(groups@) == groups_upto(ms@, reach@, multi, i as int),
        decreases reach@.len() - i,
    {
        let mi = reach[i];
        let rname = ms[mi].name;
        let ghost gs_in = group_views(groups@);
        let ghost deps = ms@[mi as int].deps@;
        let mut j: usize = 0;
        while j < ms[mi].deps.len()
            invariant
                (mi as int) < ms@.len(),
                rname == ms@[mi as int].name,
                deps == ms@[mi as int].deps@,
                j <= deps.len(),
                group_views(groups@) == add_decls(gs_in, rname, deps, multi, j as int),
            decreases deps.len() - j,
        {
            let d = &ms[mi].deps[j];
            let ghost gs_pre = group_views(groups@);
            if matches!(d.kind, DepKind::Normal) {
                match find_group(&groups, d, multi) {
                    Some(k) => {
                        groups[k].requirers.push(rname);
                        groups[k].reqs.push(d.req);
                        assert(group_views(groups@) =~~= add_decl(gs_pre, rname, *d, multi));
                    },
                    None => {
                        let mut requirers: Vec<u64> = Vec::new();
                        requirers.push(rname);
                        let mut reqs: Vec<VersionReq> = Vec::new();
                        reqs.push(d.req);
                        groups.push(
                            ReqGroup { name: d.name, origin: d.origin, requirers, reqs },
                        );
                        assert(group_views(groups@) =~~= add_decl(gs_pre, rname, *d, multi));
                    },
                }
            }
            assert(group_views(groups@) == add_decls(gs_in, rname, deps, multi, j + 1));
            j += 1;
        }
        assert(group_views(groups@) == groups_upto(ms@, reach@, multi, i + 1));
        i += 1;
    }
    groups
}

/// Chooses one concrete version per requirement group: the highest
/// offered version satisfying the whole intersection.  On failure the
/// error names every contributing requirer and its range.
pub fn resolve_versions(
    ms: &Vec<Manifest>,
    reach: &Vec<usize>,
    oracle: &Vec<OracleEntry>,
    multi: bool,
) -> (r: Result<Vec<ResolvedPackage>, ResolutionError>)
    requires
        reach@.len() >= 1,
        forall|k: int| 0 <= k < reach@.len() ==> (#[trigger] reach@[k] as int) < ms@.len(),
    ensures
        ({
            let gsv = spec_groups(ms@, reach@, multi);
            let done = mk_packages(ms@, gsv, oracle@, gsv.len() as int);
            match r {
                Ok(ps) => {
                    &&& ps@.len() == gsv.len() + 1
                    &&& ps@[0] == spec_root_package(ms@, reach@[0])
                    &&& done == Ok::<Seq<ResolvedPackage>, ResolveIssue>(ps@.skip(1))
                },
                Err(e) => match done {
                    Ok(_) => false,
                    Err(ResolveIssue::NoManifest(n)) => e matches
                        ResolutionError::ManifestUnavailable { name } && name == n,
                    Err(ResolveIssue::Unsat(idx)) => {
                        &&& 0 <= idx < gsv.len()
                        &&& e matches ResolutionError::UnsatisfiableConstraints {
                            name,
                            requirers,
                            ranges,
                        } && name == gsv[idx].name && requirers@ == gsv[idx].requirers
                            && ranges@ == gsv[idx].reqs
                    },
                },
            }
        }),
{
    let groups = collect_groups(ms, reach, multi);
    let ghost gsv = spec_groups(ms@, reach@, multi);
    let root = reach[0];
    let mut pkgs: Vec<ResolvedPackage> = Vec::new();
    pkgs.push(
        ResolvedPackage {
            identity: PackageIdentity {
                name: ms[root].name,
                version: ms[root].version,
                origin: ms[root].origin,
            },
            mi: root,
        },
    );
    assert(pkgs@[0] == spec_root_package(ms@, reach@[0]));
    assert(pkgs@.skip(1) =~= Seq::<ResolvedPackage>::empty());
    let mut k: usize = 0;
    while k < groups.len()
        invariant
            k <= groups@.len(),
            group_views(groups@) == gsv,
            gsv == spec_groups(ms@, reach@, multi),
            reach@.len() >= 1,
            forall|q: int| 0 <= q < reach@.len() ==> (#[trigger] reach@[q] as int) < ms@.len(),
            pkgs@.len() == k + 1,
            pkgs@[0] == spec_root_package(ms@, reach@[0]),
            mk_packages(ms@, gsv, oracle@, k as int) == Ok::<Seq<ResolvedPackage>, ResolveIssue>(
                pkgs@.skip(1),
            ),
        decreases groups@.len() - k,
    {
        let g = &groups[k];
        assert(g@ == gsv[k as int]);
        match find_manifest(ms, g.name) {
            None => {
                proof {
                    assert(mk_packages(ms@, gsv, oracle@, k + 1) == Err::<
                        Seq<ResolvedPackage>,
                        ResolveIssue,
                    >(ResolveIssue::NoManifest(g.name)));
                    lemma_mk_err(ms@, gsv, oracle@, k + 1, gsv.len() as int);
                }
                return Err(ResolutionError::ManifestUnavailable { name: g.name });
            },
            Some(mi) => {
                let best = match find_oracle(oracle, g.name) {
                    Some(oi) => best_exec(&oracle[oi].versions, &g.reqs),
                    None => {
                        assert(spec_versions_of(oracle@, g.name) =~= Seq::<Version>::empty());
                        None
                    },
                };
                assert(best == spec_best(oracle@, gsv[k as int]));
                match best {
                    None => {
                        proof {
                            assert(mk_packages(ms@, gsv, oracle@, k + 1) == Err::<
                                Seq<ResolvedPackage>,
                                ResolveIssue,
                            >(ResolveIssue::Unsat(k as int)));
                            lemma_mk_err(ms@, gsv, oracle@, k + 1, gsv.len() as int);
                        }
                        return Err(
                            ResolutionError::UnsatisfiableConstraints {
                                name: g.name,
                                requirers: copy_u64s(&g.requirers),
                                ranges: copy_reqs(&g.reqs),
                            },
                        );
                    },
                    Some(v) => {
                        pkgs.push(
                            ResolvedPackage {
                                identity: PackageIdentity {
                                    name: g.name,
                                    version: v,
                                    origin: g.origin,
                                },
                                mi,
                            },
                        );
                        assert(pkgs@.skip(1) =~= mk_packages(
                            ms@,
                            gsv,
                            oracle@,
                            k as int,
                        )->Ok_0.push(pkgs@[pkgs@.len() - 1]));
                        assert(mk_packages(ms@, gsv, oracle@, k + 1) == Ok::<
                            Seq<ResolvedPackage>,
                            ResolveIssue,
                        >(pkgs@.skip(1)));
                    },
                }
            },
        }
        k += 1;
    }
    Ok(pkgs)
}

} // verus!
