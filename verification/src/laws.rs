//! The library's laws: what resolution as a whole guarantees, proved
//! from the contracts of the stages.

use vstd::prelude::*;
use crate::engine::{
    Cond, Rule, StateModel, m_holds, m_iter, lemma_iter_le, lemma_no_conclusion_iter,
    no_rule_concludes,
};
use crate::model::{FeatureToken, Manifest, OracleEntry, ResolutionError};
use crate::report::{ResolutionReport, ResolutionRequest, init_model, resolution_matches,
    entry_views};
use crate::resolve::{
    GroupModel, ResolveIssue, lemma_best_props, matches_all, mk_packages, spec_best,
    spec_versions_of,
};
use crate::rules::{a_rules, b_rules, spec_compile, token_rules};

verus! {

/// Determinism: two resolutions of one request agree — both succeed
/// with identical listings, or both fail.
pub proof fn lemma_deterministic(
    req: ResolutionRequest,
    r1: Result<ResolutionReport, ResolutionError>,
    r2: Result<ResolutionReport, ResolutionError>,
)
    requires
        resolution_matches(req, r1),
        resolution_matches(req, r2),
    ensures
        r1 is Ok <==> r2 is Ok,
        r1 is Ok ==> entry_views(r1->Ok_0.packages@) == entry_views(r2->Ok_0.packages@),
{
}

/// Monotonicity: a fact of the activation state — a package present, a
/// feature activated — is never lost by running further rounds.
pub proof fn lemma_monotone(m: StateModel, rules: Seq<Rule>, i: nat, j: nat, c: Cond)
    requires
        i <= j,
        m_holds(m_iter(m, rules, i), c),
    ensures
        m_holds(m_iter(m, rules, j), c),
{
    lemma_iter_le(m, rules, i, j);
}

/// Weak activation concludes a feature, never presence: no rule a weak
/// token compiles to makes any package present.
pub proof fn lemma_weak_token_no_present(
    ms: Seq<Manifest>,
    pkgs: Seq<crate::resolve::ResolvedPackage>,
    i: int,
    prem: Cond,
    from_cli: bool,
    dn: u64,
    h: u64,
)
    requires
        token_rules(ms, pkgs, i, prem, from_cli, FeatureToken::WeakDependency(dn, h)) is Ok,
    ensures
        forall|k: int|
            0 <= k < token_rules(
                ms,
                pkgs,
                i,
                prem,
                from_cli,
                FeatureToken::WeakDependency(dn, h),
            )->Ok_0.len() ==> (#[trigger] token_rules(
                ms,
                pkgs,
                i,
                prem,
                from_cli,
                FeatureToken::WeakDependency(dn, h),
            )->Ok_0[k]).conclusion matches Cond::Feat(_, _),
{
}

/// Weak-activation non-forcing: a package that is not the root and that
/// no rule of the compiled system concludes present — in particular one
/// referenced only through weak activation — never becomes present.
pub proof fn lemma_weak_nonforcing(rules: Seq<Rule>, n: int, j: usize, rounds: nat)
    requires
        0 < j,
        (j as int) < n,
        no_rule_concludes(rules, Cond::Present(j)),
    ensures
        !m_holds(m_iter(init_model(n), rules, rounds), Cond::Present(j)),
{
    assert(!m_holds(init_model(n), Cond::Present(j)));
    lemma_no_conclusion_iter(init_model(n), rules, Cond::Present(j), rounds);
}

/// With default features suppressed and no explicit tokens, the
/// compiled system seeds nothing: every rule comes from declared
/// requirer wiring or feature implications.
pub proof fn lemma_no_defaults_no_seeds(
    ms: Seq<Manifest>,
    pkgs: Seq<crate::resolve::ResolvedPackage>,
)
    requires
        spec_compile(ms, pkgs, false, true, Seq::<FeatureToken>::empty()) is Ok,
    ensures
        spec_compile(ms, pkgs, false, true, Seq::<FeatureToken>::empty())->Ok_0
            == crate::rules::c_rules(ms, pkgs, false, pkgs.len() as int)->Ok_0
            + crate::rules::d_rules(ms, pkgs, pkgs.len() as int)->Ok_0,
{
    let toks = Seq::<FeatureToken>::empty();
    assert(a_rules(ms, pkgs, toks, 0) == Ok::<Seq<Rule>, ResolutionError>(Seq::empty()));
    assert(b_rules(ms, pkgs, true) == Ok::<Seq<Rule>, ResolutionError>(Seq::empty()));
    let rc = crate::rules::c_rules(ms, pkgs, false, pkgs.len() as int)->Ok_0;
    let rd = crate::rules::d_rules(ms, pkgs, pkgs.len() as int)->Ok_0;
    assert(spec_compile(ms, pkgs, false, true, toks)->Ok_0 =~= rc + rd);
}

/// When the resolver reports an unsatisfiable intersection, no version
/// the oracle offers for that name satisfies every contributed range.
pub proof fn lemma_unsat_meaning(
    ms: Seq<Manifest>,
    gs: Seq<GroupModel>,
    os: Seq<OracleEntry>,
    n: int,
    idx: int,
)
    requires
        0 <= n <= gs.len(),
        mk_packages(ms, gs, os, n) == Err::<Seq<crate::resolve::ResolvedPackage>, ResolveIssue>(
            ResolveIssue::Unsat(idx),
        ),
    ensures
        0 <= idx < n,
        forall|k: int|
            0 <= k < spec_versions_of(os, gs[idx].name).len() ==> !matches_all(
                gs[idx].reqs,
                #[trigger] spec_versions_of(os, gs[idx].name)[k],
            ),
    decreases n,
{
    if n > 0 {
        match mk_packages(ms, gs, os, n - 1) {
            Err(_) => {
                lemma_unsat_meaning(ms, gs, os, n - 1, idx);
            },
            Ok(_) => {
                assert(idx == n - 1);
                assert(spec_best(os, gs[idx]) is None);
                lemma_best_props(
                    spec_versions_of(os, gs[idx].name),
                    gs[idx].reqs,
                    spec_versions_of(os, gs[idx].name).len() as int,
                );
            },
        }
    }
}

/// Conflict reporting names every contributor: a discovered
/// normal-kind declaration that unifies with a group — in particular
/// with the group an unsatisfiable intersection is reported for — has
/// its requirer and its range recorded in that very group.
pub proof fn lemma_conflict_names_every_contributor(
    ms: Seq<Manifest>,
    reach: Seq<usize>,
    multi: bool,
    idx: int,
    i0: int,
    j0: int,
)
    requires
        forall|k: int| 0 <= k < reach.len() ==> (#[trigger] reach[k] as int) < ms.len(),
        0 <= idx < crate::resolve::spec_groups(ms, reach, multi).len(),
        0 <= i0 < reach.len(),
        0 <= j0 < ms[reach[i0] as int].deps@.len(),
        ms[reach[i0] as int].deps@[j0].kind == crate::model::DepKind::Normal,
        crate::resolve::decl_in_group(
            crate::resolve::spec_groups(ms, reach, multi)[idx],
            ms[reach[i0] as int].deps@[j0],
            multi,
        ),
    ensures
        crate::resolve::group_records(
            crate::resolve::spec_groups(ms, reach, multi)[idx],
            ms[reach[i0] as int].name,
            ms[reach[i0] as int].deps@[j0],
            multi,
        ),
{
    let gs = crate::resolve::spec_groups(ms, reach, multi);
    let d0 = ms[reach[i0] as int].deps@[j0];
    crate::resolve::lemma_groups_complete(ms, reach, multi, reach.len() as int);
    crate::resolve::lemma_groups_separated(ms, reach, multi, reach.len() as int);
    assert(crate::resolve::groups_record(gs, ms[reach[i0] as int].name, d0, multi));
    let k = choose|k: int|
        0 <= k < gs.len() && crate::resolve::group_records(
            #[trigger] gs[k],
            ms[reach[i0] as int].name,
            d0,
            multi,
        );
    crate::resolve::lemma_unifies_unique(gs, multi, k, idx, d0);
}

/// The node a strong token — `dep/feature` or a bare optional-dep
/// activation, never a weak one — makes present, seen from package `i`.
pub open spec fn strong_token_target(
    ms: Seq<Manifest>,
    pkgs: Seq<crate::resolve::ResolvedPackage>,
    i: int,
    t: FeatureToken,
) -> Option<int> {
    let deps = ms[pkgs[i].mi as int].deps@;
    match t {
        FeatureToken::Dependency(dn, h) => match crate::rules::find_decl_from(deps, dn, 0) {
            None => None,
            Some(di) => crate::rules::find_target_from(pkgs, deps[di], 0),
        },
        FeatureToken::OptionalDep(dn) => match crate::rules::find_decl_from(deps, dn, 0) {
            None => None,
            Some(di) => crate::rules::find_target_from(pkgs, deps[di], 0),
        },
        FeatureToken::Plain(_) => None,
        FeatureToken::WeakDependency(_, _) => None,
    }
}

/// Some token of the list strongly targets node `jj`.
pub open spec fn strong_tokened(
    ms: Seq<Manifest>,
    pkgs: Seq<crate::resolve::ResolvedPackage>,
    i: int,
    toks: Seq<FeatureToken>,
    jj: int,
) -> bool {
    exists|q: int|
        0 <= q < toks.len() && #[trigger] strong_token_target(ms, pkgs, i, toks[q]) == Some(jj)
}

/// Some declared feature of some package strongly targets node `jj`.
pub open spec fn strong_any_feature(
    ms: Seq<Manifest>,
    pkgs: Seq<crate::resolve::ResolvedPackage>,
    jj: int,
) -> bool {
    exists|i: int, p: int|
        0 <= i < pkgs.len() && 0 <= p < ms[pkgs[i].mi as int].features@.len()
            && #[trigger] strong_tokened(
            ms,
            pkgs,
            i,
            ms[pkgs[i].mi as int].features@[p].implies@,
            jj,
        )
}

/// Some non-optional normal-kind declaration resolves to node `jj`.
pub open spec fn strong_any_decl(
    ms: Seq<Manifest>,
    pkgs: Seq<crate::resolve::ResolvedPackage>,
    jj: int,
) -> bool {
    exists|i: int, q: int|
        0 <= i < pkgs.len() && 0 <= q < ms[pkgs[i].mi as int].deps@.len()
            && ms[pkgs[i].mi as int].deps@[q].kind == crate::model::DepKind::Normal
            && !ms[pkgs[i].mi as int].deps@[q].optional
            && #[trigger] crate::rules::find_target_from(
            pkgs,
            ms[pkgs[i].mi as int].deps@[q],
            0,
        ) == Some(jj)
}

proof fn lemma_find_target_bounds(
    pkgs: Seq<crate::resolve::ResolvedPackage>,
    d: crate::model::DependencyDeclaration,
    k: int,
)
    requires
        0 <= k <= pkgs.len(),
    ensures
        match crate::rules::find_target_from(pkgs, d, k) {
            Some(j) => k <= j < pkgs.len(),
            None => true,
        },
    decreases pkgs.len() - k,
{
    if k < pkgs.len() {
        lemma_find_target_bounds(pkgs, d, k + 1);
    }
}

/// A token's rules conclude presence only of the token's strong target.
proof fn lemma_token_present_source(
    ms: Seq<Manifest>,
    pkgs: Seq<crate::resolve::ResolvedPackage>,
    i: int,
    prem: Cond,
    from_cli: bool,
    t: FeatureToken,
)
    requires
        pkgs.len() <= usize::MAX,
        token_rules(ms, pkgs, i, prem, from_cli, t) is Ok,
    ensures
        forall|k: int|
            0 <= k < token_rules(ms, pkgs, i, prem, from_cli, t)->Ok_0.len() ==> ((#[trigger]
            token_rules(ms, pkgs, i, prem, from_cli, t)->Ok_0[k]).conclusion matches Cond::Present(
                jj,
            ) ==> strong_token_target(ms, pkgs, i, t) == Some(jj as int)),
{
    let rt = token_rules(ms, pkgs, i, prem, from_cli, t)->Ok_0;
    let deps = ms[pkgs[i].mi as int].deps@;
    assert forall|k: int| 0 <= k < rt.len() implies ((#[trigger] token_rules(
        ms,
        pkgs,
        i,
        prem,
        from_cli,
        t,
    )->Ok_0[k]).conclusion matches Cond::Present(jj) ==> strong_token_target(ms, pkgs, i, t)
        == Some(jj as int)) by {
        let r = token_rules(ms, pkgs, i, prem, from_cli, t)->Ok_0[k];
        match r.conclusion {
            Cond::Present(jj) => {
                match t {
                    FeatureToken::Plain(_) => {
                        assert(r.conclusion matches Cond::Feat(_, _));
                    },
                    FeatureToken::WeakDependency(_, _) => {
                        assert(r.conclusion matches Cond::Feat(_, _));
                    },
                    FeatureToken::Dependency(dn, h) => {
                        match crate::rules::find_decl_from(deps, dn, 0) {
                            None => {
                                assert(false);
                            },
                            Some(di) => {
                                match crate::rules::find_target_from(pkgs, deps[di], 0) {
                                    None => {
                                        assert(false);
                                    },
                                    Some(tgt) => {
                                        lemma_find_target_bounds(pkgs, deps[di], 0);
                                        assert(rt =~= seq![
                                            Rule {
                                                prem_a: Some(prem),
                                                prem_b: None,
                                                conclusion: Cond::Present(tgt as usize),
                                            },
                                            Rule {
                                                prem_a: Some(prem),
                                                prem_b: None,
                                                conclusion: Cond::Feat(tgt as usize, h),
                                            },
                                        ]);
                                        if k == 0 {
                                            assert(r.conclusion == Cond::Present(tgt as usize));
                                            assert(jj as int == tgt);
                                            assert(strong_token_target(ms, pkgs, i, t) == Some(
                                                tgt,
                                            ));
                                        } else {
                                            assert(r.conclusion matches Cond::Feat(_, _));
                                        }
                                    },
                                }
                            },
                        }
                    },
                    FeatureToken::OptionalDep(dn) => {
                        match crate::rules::find_decl_from(deps, dn, 0) {
                            None => {
                                assert(false);
                            },
                            Some(di) => {
                                match crate::rules::find_target_from(pkgs, deps[di], 0) {
                                    None => {
                                        assert(false);
                                    },
                                    Some(tgt) => {
                                        lemma_find_target_bounds(pkgs, deps[di], 0);
                                        assert(rt =~= seq![
                                            Rule {
                                                prem_a: Some(prem),
                                                prem_b: None,
                                                conclusion: Cond::Present(tgt as usize),
                                            },
                                        ]);
                                        assert(r.conclusion == Cond::Present(tgt as usize));
                                        assert(jj as int == tgt);
                                        assert(strong_token_target(ms, pkgs, i, t) == Some(tgt));
                                    },
                                }
                            },
                        }
                    },
                }
            },
            Cond::Feat(_, _) => {},
        }
    }
}

/// Edge feature seeds conclude features only.
proof fn lemma_edge_feats_shape(
    ms: Seq<Manifest>,
    pkgs: Seq<crate::resolve::ResolvedPackage>,
    i: int,
    j: int,
    feats: Seq<u64>,
    q: int,
)
    requires
        0 <= q <= feats.len(),
        crate::rules::edge_feats(ms, pkgs, i, j, feats, q) is Ok,
    ensures
        forall|k: int|
            0 <= k < crate::rules::edge_feats(ms, pkgs, i, j, feats, q)->Ok_0.len() ==> (
            #[trigger] crate::rules::edge_feats(ms, pkgs, i, j, feats, q)->Ok_0[k]).conclusion
                matches Cond::Feat(_, _),
    decreases q,
{
    if q > 0 {
        lemma_edge_feats_shape(ms, pkgs, i, j, feats, q - 1);
    }
}

proof fn lemma_edge_defaults_shape(
    ms: Seq<Manifest>,
    pkgs: Seq<crate::resolve::ResolvedPackage>,
    i: int,
    j: int,
    defs: Seq<u64>,
    q: int,
)
    requires
        0 <= q <= defs.len(),
        crate::rules::edge_defaults(ms, pkgs, i, j, defs, q) is Ok,
    ensures
        forall|k: int|
            0 <= k < crate::rules::edge_defaults(ms, pkgs, i, j, defs, q)->Ok_0.len() ==> (
            #[trigger] crate::rules::edge_defaults(ms, pkgs, i, j, defs, q)->Ok_0[k]).conclusion
                matches Cond::Feat(_, _),
    decreases q,
{
    if q > 0 {
        lemma_edge_defaults_shape(ms, pkgs, i, j, defs, q - 1);
    }
}

/// Without `--all-features`, one declaration's rules conclude presence
/// only when the declaration is non-optional, and only of its target.
proof fn lemma_decl_present_source(
    ms: Seq<Manifest>,
    pkgs: Seq<crate::resolve::ResolvedPackage>,
    i: int,
    d: crate::model::DependencyDeclaration,
)
    requires
        pkgs.len() <= usize::MAX,
        crate::rules::decl_rules(ms, pkgs, i, d, false) is Ok,
    ensures
        forall|k: int|
            0 <= k < crate::rules::decl_rules(ms, pkgs, i, d, false)->Ok_0.len() ==> ((#[trigger]
            crate::rules::decl_rules(ms, pkgs, i, d, false)->Ok_0[k]).conclusion matches
            Cond::Present(jj) ==> !d.optional && crate::rules::find_target_from(pkgs, d, 0)
                == Some(jj as int)),
{
    let ft = crate::rules::find_target_from(pkgs, d, 0);
    assert(ft is Some);
    let j = ft->0;
    lemma_edge_feats_shape(ms, pkgs, i, j, d.features@, d.features@.len() as int);
    let ef = crate::rules::edge_feats(ms, pkgs, i, j, d.features@, d.features@.len() as int)
        ->Ok_0;
    let presence: Seq<Rule> = if !d.optional {
        seq![
            Rule {
                prem_a: Some(Cond::Present(i as usize)),
                prem_b: None,
                conclusion: Cond::Present(j as usize),
            },
        ]
    } else {
        Seq::empty()
    };
    let dr = crate::rules::decl_rules(ms, pkgs, i, d, false)->Ok_0;
    if d.default_features {
        let defs = ms[pkgs[j].mi as int].defaults@;
        lemma_edge_defaults_shape(ms, pkgs, i, j, defs, defs.len() as int);
        let ed = crate::rules::edge_defaults(ms, pkgs, i, j, defs, defs.len() as int)->Ok_0;
        assert(dr == presence + ef + ed);
        assert forall|k: int| 0 <= k < dr.len() implies ((#[trigger] crate::rules::decl_rules(
            ms,
            pkgs,
            i,
            d,
            false,
        )->Ok_0[k]).conclusion matches Cond::Present(jj) ==> !d.optional
            && crate::rules::find_target_from(pkgs, d, 0) == Some(jj as int)) by {
            lemma_find_target_bounds(pkgs, d, 0);
            if k < presence.len() {
                assert(dr[k] == presence[0]);
                assert(dr[k].conclusion == Cond::Present(j as usize));
            } else if k < presence.len() + ef.len() {
                assert(dr[k] == ef[k - presence.len()]);
                assert(crate::rules::edge_feats(ms, pkgs, i, j, d.features@, d.features@.len() as int)->Ok_0[
                    k - presence.len()].conclusion matches Cond::Feat(_, _));
            } else {
                assert(dr[k] == ed[k - presence.len() - ef.len()]);
                assert(crate::rules::edge_defaults(ms, pkgs, i, j, ms[pkgs[j].mi as int].defaults@, ms[pkgs[j].mi as int].defaults@.len() as int)->Ok_0[
                    k - presence.len() - ef.len()].conclusion matches Cond::Feat(_, _));
            }
        }
    } else {
        assert(dr == presence + ef);
        assert forall|k: int| 0 <= k < dr.len() implies ((#[trigger] crate::rules::decl_rules(
            ms,
            pkgs,
            i,
            d,
            false,
        )->Ok_0[k]).conclusion matches Cond::Present(jj) ==> !d.optional
            && crate::rules::find_target_from(pkgs, d, 0) == Some(jj as int)) by {
            lemma_find_target_bounds(pkgs, d, 0);
            if k < presence.len() {
                assert(dr[k] == presence[0]);
                assert(dr[k].conclusion == Cond::Present(j as usize));
            } else {
                assert(dr[k] == ef[k - presence.len()]);
                assert(crate::rules::edge_feats(ms, pkgs, i, j, d.features@, d.features@.len() as int)->Ok_0[
                    k - presence.len()].conclusion matches Cond::Feat(_, _));
            }
        }
    }
}

/// Declaration folds conclude presence only from a strong declaration.
proof fn lemma_decls_present_source(
    ms: Seq<Manifest>,
    pkgs: Seq<crate::resolve::ResolvedPackage>,
    i: int,
    deps: Seq<crate::model::DependencyDeclaration>,
    q: int,
    jj: int,
)
    requires
        pkgs.len() <= usize::MAX,
        0 <= q <= deps.len(),
        0 <= i < pkgs.len(),
        deps == ms[pkgs[i].mi as int].deps@,
        crate::rules::decls_rules(ms, pkgs, i, deps, false, q) is Ok,
        !strong_any_decl(ms, pkgs, jj),
    ensures
        forall|k: int|
            0 <= k < crate::rules::decls_rules(ms, pkgs, i, deps, false, q)->Ok_0.len() ==> !((
            #[trigger] crate::rules::decls_rules(ms, pkgs, i, deps, false, q)->Ok_0[k]).conclusion
                matches Cond::Present(w) && w == jj),
    decreases q,
{
    if q > 0 {
        lemma_decls_present_source(ms, pkgs, i, deps, q - 1, jj);
        let pre = crate::rules::decls_rules(ms, pkgs, i, deps, false, q - 1)->Ok_0;
        if deps[q - 1].kind == crate::model::DepKind::Normal {
            lemma_decl_present_source(ms, pkgs, i, deps[q - 1]);
            let rd = crate::rules::decl_rules(ms, pkgs, i, deps[q - 1], false)->Ok_0;
            assert forall|k: int|
                0 <= k < crate::rules::decls_rules(ms, pkgs, i, deps, false, q)->Ok_0.len()
                    implies !((#[trigger] crate::rules::decls_rules(
                ms,
                pkgs,
                i,
                deps,
                false,
                q,
            )->Ok_0[k]).conclusion matches Cond::Present(w) && w == jj) by {
                if k >= pre.len() {
                    let r = rd[k - pre.len()];
                    match r.conclusion {
                        Cond::Present(w) => {
                            if w == jj {
                                assert(!deps[q - 1].optional);
                                assert(crate::rules::find_target_from(pkgs, deps[q - 1], 0)
                                    == Some(jj));
                                assert(strong_any_decl(ms, pkgs, jj));
                            }
                        },
                        Cond::Feat(_, _) => {},
                    }
                }
            }
        }
    }
}

/// The whole edge phase concludes presence only from a strong
/// declaration.
proof fn lemma_c_present_source(
    ms: Seq<Manifest>,
    pkgs: Seq<crate::resolve::ResolvedPackage>,
    n: int,
    jj: int,
)
    requires
        pkgs.len() <= usize::MAX,
        0 <= n <= pkgs.len(),
        crate::rules::c_rules(ms, pkgs, false, n) is Ok,
        !strong_any_decl(ms, pkgs, jj),
    ensures
        forall|k: int|
            0 <= k < crate::rules::c_rules(ms, pkgs, false, n)->Ok_0.len() ==> !((#[trigger]
            crate::rules::c_rules(ms, pkgs, false, n)->Ok_0[k]).conclusion matches Cond::Present(
                w,
            ) && w == jj),
    decreases n,
{
    if n > 0 {
        lemma_c_present_source(ms, pkgs, n - 1, jj);
        let deps = ms[pkgs[n - 1].mi as int].deps@;
        lemma_decls_present_source(ms, pkgs, n - 1, deps, deps.len() as int, jj);
        let pre = crate::rules::c_rules(ms, pkgs, false, n - 1)->Ok_0;
        let rd = crate::rules::decls_rules(ms, pkgs, n - 1, deps, false, deps.len() as int)->Ok_0;
        assert forall|k: int|
            0 <= k < crate::rules::c_rules(ms, pkgs, false, n)->Ok_0.len() implies !((#[trigger]
        crate::rules::c_rules(ms, pkgs, false, n)->Ok_0[k]).conclusion matches Cond::Present(w)
            && w == jj) by {
            if k >= pre.len() {
                assert(crate::rules::c_rules(ms, pkgs, false, n)->Ok_0[k] == rd[k - pre.len()]);
            }
        }
    }
}

/// Feature-token folds conclude presence only from a strong token.
proof fn lemma_feat_tokens_present_source(
    ms: Seq<Manifest>,
    pkgs: Seq<crate::resolve::ResolvedPackage>,
    i: int,
    fname: u64,
    toks: Seq<FeatureToken>,
    q: int,
    jj: int,
)
    requires
        pkgs.len() <= usize::MAX,
        0 <= q <= toks.len(),
        crate::rules::feat_tokens(ms, pkgs, i, fname, toks, q) is Ok,
        !strong_tokened(ms, pkgs, i, toks, jj),
    ensures
        forall|k: int|
            0 <= k < crate::rules::feat_tokens(ms, pkgs, i, fname, toks, q)->Ok_0.len() ==> !((
            #[trigger] crate::rules::feat_tokens(ms, pkgs, i, fname, toks, q)->Ok_0[k]).conclusion
                matches Cond::Present(w) && w == jj),
    decreases q,
{
    if q > 0 {
        lemma_feat_tokens_present_source(ms, pkgs, i, fname, toks, q - 1, jj);
        let pre = crate::rules::feat_tokens(ms, pkgs, i, fname, toks, q - 1)->Ok_0;
        let prem = Cond::Feat(i as usize, fname);
        lemma_token_present_source(ms, pkgs, i, prem, false, toks[q - 1]);
        let rt = token_rules(ms, pkgs, i, prem, false, toks[q - 1])->Ok_0;
        assert forall|k: int|
            0 <= k < crate::rules::feat_tokens(ms, pkgs, i, fname, toks, q)->Ok_0.len() implies !((
        #[trigger] crate::rules::feat_tokens(ms, pkgs, i, fname, toks, q)->Ok_0[k]).conclusion
            matches Cond::Present(w) && w == jj) by {
            if k >= pre.len() {
                let r = rt[k - pre.len()];
                match r.conclusion {
                    Cond::Present(w) => {
                        if w == jj {
                            assert(strong_token_target(ms, pkgs, i, toks[q - 1]) == Some(jj));
                        }
                    },
                    Cond::Feat(_, _) => {},
                }
            }
        }
    }
}

proof fn lemma_feats_present_source(
    ms: Seq<Manifest>,
    pkgs: Seq<crate::resolve::ResolvedPackage>,
    i: int,
    fds: Seq<crate::model::FeatureDecl>,
    p: int,
    jj: int,
)
    requires
        pkgs.len() <= usize::MAX,
        0 <= p <= fds.len(),
        0 <= i < pkgs.len(),
        fds == ms[pkgs[i].mi as int].features@,
        crate::rules::feats_rules(ms, pkgs, i, fds, p) is Ok,
        !strong_any_feature(ms, pkgs, jj),
    ensures
        forall|k: int|
            0 <= k < crate::rules::feats_rules(ms, pkgs, i, fds, p)->Ok_0.len() ==> !((#[trigger]
            crate::rules::feats_rules(ms, pkgs, i, fds, p)->Ok_0[k]).conclusion matches
            Cond::Present(w) && w == jj),
    decreases p,
{
    if p > 0 {
        lemma_feats_present_source(ms, pkgs, i, fds, p - 1, jj);
        let fd = fds[p - 1];
        assert(!strong_tokened(ms, pkgs, i, fd.implies@, jj));
        lemma_feat_tokens_present_source(
            ms,
            pkgs,
            i,
            fd.name,
            fd.implies@,
            fd.implies@.len() as int,
            jj,
        );
        let pre = crate::rules::feats_rules(ms, pkgs, i, fds, p - 1)->Ok_0;
        let rt = crate::rules::feat_tokens(ms, pkgs, i, fd.name, fd.implies@, fd.implies@.len() as int)->Ok_0;
        assert forall|k: int|
            0 <= k < crate::rules::feats_rules(ms, pkgs, i, fds, p)->Ok_0.len() implies !((
        #[trigger] crate::rules::feats_rules(ms, pkgs, i, fds, p)->Ok_0[k]).conclusion matches
            Cond::Present(w) && w == jj) by {
            if k >= pre.len() {
                assert(crate::rules::feats_rules(ms, pkgs, i, fds, p)->Ok_0[k] == rt[k
                    - pre.len()]);
            }
        }
    }
}

proof fn lemma_d_present_source(
    ms: Seq<Manifest>,
    pkgs: Seq<crate::resolve::ResolvedPackage>,
    n: int,
    jj: int,
)
    requires
        pkgs.len() <= usize::MAX,
        0 <= n <= pkgs.len(),
        crate::rules::d_rules(ms, pkgs, n) is Ok,
        !strong_any_feature(ms, pkgs, jj),
    ensures
        forall|k: int|
            0 <= k < crate::rules::d_rules(ms, pkgs, n)->Ok_0.len() ==> !((#[trigger]
            crate::rules::d_rules(ms, pkgs, n)->Ok_0[k]).conclusion matches Cond::Present(w) && w
                == jj),
    decreases n,
{
    if n > 0 {
        lemma_d_present_source(ms, pkgs, n - 1, jj);
        let fds = ms[pkgs[n - 1].mi as int].features@;
        lemma_feats_present_source(ms, pkgs, n - 1, fds, fds.len() as int, jj);
        let pre = crate::rules::d_rules(ms, pkgs, n - 1)->Ok_0;
        let rt = crate::rules::feats_rules(ms, pkgs, n - 1, fds, fds.len() as int)->Ok_0;
        assert forall|k: int|
            0 <= k < crate::rules::d_rules(ms, pkgs, n)->Ok_0.len() implies !((#[trigger]
        crate::rules::d_rules(ms, pkgs, n)->Ok_0[k]).conclusion matches Cond::Present(w) && w
            == jj) by {
            if k >= pre.len() {
                assert(crate::rules::d_rules(ms, pkgs, n)->Ok_0[k] == rt[k - pre.len()]);
            }
        }
    }
}

/// A caller-token fold that compiled is made of tokens that compiled.
proof fn lemma_a_rules_ok(
    ms: Seq<Manifest>,
    pkgs: Seq<crate::resolve::ResolvedPackage>,
    toks: Seq<FeatureToken>,
    n: int,
)
    requires
        0 <= n <= toks.len(),
        a_rules(ms, pkgs, toks, n) is Ok,
    ensures
        forall|q: int|
            0 <= q < n ==> #[trigger] token_rules(ms, pkgs, 0, Cond::Present(0), true, toks[q])
                is Ok,
    decreases n,
{
    if n > 0 {
        lemma_a_rules_ok(ms, pkgs, toks, n - 1);
    }
}

/// Weak-activation non-forcing, end to end: without `--all-features`,
/// a non-root package that no non-optional declaration resolves to and
/// that no strong token — of the caller or of any manifest feature —
/// targets, is referenced at most weakly; no compiled rule concludes
/// its presence, so it never becomes present and never appears in the
/// report.
pub proof fn lemma_weak_only_never_present(
    ms: Seq<Manifest>,
    pkgs: Seq<crate::resolve::ResolvedPackage>,
    ndf: bool,
    toks: Seq<FeatureToken>,
    rules: Seq<Rule>,
    j: usize,
    rounds: nat,
)
    requires
        pkgs.len() <= usize::MAX,
        spec_compile(ms, pkgs, false, ndf, toks) == Ok::<Seq<Rule>, ResolutionError>(rules),
        0 < j,
        (j as int) < pkgs.len(),
        !strong_tokened(ms, pkgs, 0, toks, j as int),
        !strong_any_feature(ms, pkgs, j as int),
        !strong_any_decl(ms, pkgs, j as int),
    ensures
        no_rule_concludes(rules, Cond::Present(j)),
        !m_holds(m_iter(init_model(pkgs.len() as int), rules, rounds), Cond::Present(j)),
{
    let ra = a_rules(ms, pkgs, toks, toks.len() as int)->Ok_0;
    let rb = b_rules(ms, pkgs, ndf)->Ok_0;
    let rc = crate::rules::c_rules(ms, pkgs, false, pkgs.len() as int)->Ok_0;
    let rd = crate::rules::d_rules(ms, pkgs, pkgs.len() as int)->Ok_0;
    assert(rules == ra + rb + rc + rd + Seq::<Rule>::empty());
    lemma_a_rules_cover(ms, pkgs, toks, toks.len() as int);
    lemma_a_rules_ok(ms, pkgs, toks, toks.len() as int);
    if !ndf {
        lemma_b_defaults_shape(
            ms,
            pkgs,
            ms[pkgs[0].mi as int].defaults@,
            ms[pkgs[0].mi as int].defaults@.len() as int,
        );
    }
    lemma_c_present_source(ms, pkgs, pkgs.len() as int, j as int);
    lemma_d_present_source(ms, pkgs, pkgs.len() as int, j as int);
    assert forall|k: int| 0 <= k < rules.len() implies (#[trigger] rules[k]).conclusion
        != Cond::Present(j) by {
        if k < ra.len() {
            assert(rules[k] == ra[k]);
            let q = choose|q: int|
                0 <= q < toks.len() && token_rules(ms, pkgs, 0, Cond::Present(0), true, toks[q])
                    ->Ok_0.contains(#[trigger] a_rules(ms, pkgs, toks, toks.len() as int)->Ok_0[
                    k
                ]);
            lemma_token_present_source(ms, pkgs, 0, Cond::Present(0), true, toks[q]);
            let rt = token_rules(ms, pkgs, 0, Cond::Present(0), true, toks[q])->Ok_0;
            let p = choose|p: int| 0 <= p < rt.len() && rt[p] == ra[k];
            if rules[k].conclusion == Cond::Present(j) {
                assert(strong_token_target(ms, pkgs, 0, toks[q]) == Some(j as int));
                assert(strong_tokened(ms, pkgs, 0, toks, j as int));
            }
        } else if k < ra.len() + rb.len() {
            assert(rules[k] == rb[k - ra.len()]);
            if ndf {
                assert(rb.len() == 0);
            }
        } else if k < ra.len() + rb.len() + rc.len() {
            assert(rules[k] == rc[k - ra.len() - rb.len()]);
        } else {
            assert(rules[k] == rd[k - ra.len() - rb.len() - rc.len()]);
        }
    }
    lemma_weak_nonforcing(rules, pkgs.len() as int, j, rounds);
}

/// Every rule a listed token compiles to stands in the caller-token
/// rules.
proof fn lemma_a_rules_mem(
    ms: Seq<Manifest>,
    pkgs: Seq<crate::resolve::ResolvedPackage>,
    toks: Seq<FeatureToken>,
    q: int,
    n: int,
)
    requires
        0 <= q < n <= toks.len(),
        a_rules(ms, pkgs, toks, n) is Ok,
    ensures
        forall|p: int|
            0 <= p < token_rules(ms, pkgs, 0, Cond::Present(0), true, toks[q])->Ok_0.len()
                ==> a_rules(ms, pkgs, toks, n)->Ok_0.contains(
                #[trigger] token_rules(ms, pkgs, 0, Cond::Present(0), true, toks[q])->Ok_0[p],
            ),
    decreases n,
{
    let rt = token_rules(ms, pkgs, 0, Cond::Present(0), true, toks[n - 1])->Ok_0;
    let pre = a_rules(ms, pkgs, toks, n - 1)->Ok_0;
    if q == n - 1 {
        assert forall|p: int|
            0 <= p < token_rules(ms, pkgs, 0, Cond::Present(0), true, toks[q])->Ok_0.len()
                implies a_rules(ms, pkgs, toks, n)->Ok_0.contains(
            #[trigger] token_rules(ms, pkgs, 0, Cond::Present(0), true, toks[q])->Ok_0[p],
        ) by {
            assert(a_rules(ms, pkgs, toks, n)->Ok_0[pre.len() + p] == rt[p]);
        }
    } else {
        lemma_a_rules_mem(ms, pkgs, toks, q, n - 1);
        assert forall|p: int|
            0 <= p < token_rules(ms, pkgs, 0, Cond::Present(0), true, toks[q])->Ok_0.len()
                implies a_rules(ms, pkgs, toks, n)->Ok_0.contains(
            #[trigger] token_rules(ms, pkgs, 0, Cond::Present(0), true, toks[q])->Ok_0[p],
        ) by {
            let r = token_rules(ms, pkgs, 0, Cond::Present(0), true, toks[q])->Ok_0[p];
            let w = choose|w: int| 0 <= w < pre.len() && pre[w] == r;
            assert(a_rules(ms, pkgs, toks, n)->Ok_0[w] == r);
        }
    }
}

/// Every caller-token rule comes from some listed token.
proof fn lemma_a_rules_cover(
    ms: Seq<Manifest>,
    pkgs: Seq<crate::resolve::ResolvedPackage>,
    toks: Seq<FeatureToken>,
    n: int,
)
    requires
        0 <= n <= toks.len(),
        a_rules(ms, pkgs, toks, n) is Ok,
    ensures
        forall|k: int|
            0 <= k < a_rules(ms, pkgs, toks, n)->Ok_0.len() ==> exists|q: int|
                0 <= q < n && token_rules(ms, pkgs, 0, Cond::Present(0), true, toks[q])->Ok_0
                    .contains(#[trigger] a_rules(ms, pkgs, toks, n)->Ok_0[k]),
    decreases n,
{
    if n > 0 {
        lemma_a_rules_cover(ms, pkgs, toks, n - 1);
        let pre = a_rules(ms, pkgs, toks, n - 1)->Ok_0;
        let rt = token_rules(ms, pkgs, 0, Cond::Present(0), true, toks[n - 1])->Ok_0;
        assert forall|k: int|
            0 <= k < a_rules(ms, pkgs, toks, n)->Ok_0.len() implies exists|q: int|
                0 <= q < n && token_rules(ms, pkgs, 0, Cond::Present(0), true, toks[q])->Ok_0
                    .contains(#[trigger] a_rules(ms, pkgs, toks, n)->Ok_0[k]) by {
            let r = a_rules(ms, pkgs, toks, n)->Ok_0[k];
            if k < pre.len() {
                assert(pre[k] == r);
                let q = choose|q: int|
                    0 <= q < n - 1 && token_rules(ms, pkgs, 0, Cond::Present(0), true, toks[q])
                        ->Ok_0.contains(#[trigger] pre[k]);
                assert(token_rules(ms, pkgs, 0, Cond::Present(0), true, toks[q])->Ok_0.contains(
                    r,
                ));
            } else {
                assert(rt[k - pre.len()] == r);
                assert(token_rules(ms, pkgs, 0, Cond::Present(0), true, toks[n - 1])->Ok_0
                    .contains(r));
            }
        }
    }
}

/// Monotonicity across selections: a selection whose explicit tokens
/// all occur in another's activates no more — every fact of the
/// smaller selection's fixpoint holds in the larger selection's.
pub proof fn lemma_selection_monotone(
    ms: Seq<Manifest>,
    pkgs: Seq<crate::resolve::ResolvedPackage>,
    all: bool,
    ndf: bool,
    toks1: Seq<FeatureToken>,
    toks2: Seq<FeatureToken>,
    r1: Seq<Rule>,
    r2: Seq<Rule>,
    n: nat,
    c: Cond,
)
    requires
        spec_compile(ms, pkgs, all, ndf, toks1) == Ok::<Seq<Rule>, ResolutionError>(r1),
        spec_compile(ms, pkgs, all, ndf, toks2) == Ok::<Seq<Rule>, ResolutionError>(r2),
        forall|q: int| 0 <= q < toks1.len() ==> toks2.contains(#[trigger] toks1[q]),
        m_holds(m_iter(init_model(pkgs.len() as int), r1, n), c),
    ensures
        m_holds(m_iter(init_model(pkgs.len() as int), r2, (r2.len() + 1) as nat), c),
{
    let m = init_model(pkgs.len() as int);
    let a1 = a_rules(ms, pkgs, toks1, toks1.len() as int)->Ok_0;
    let a2 = a_rules(ms, pkgs, toks2, toks2.len() as int)->Ok_0;
    let rest = b_rules(ms, pkgs, ndf)->Ok_0 + crate::rules::c_rules(
        ms,
        pkgs,
        all,
        pkgs.len() as int,
    )->Ok_0 + crate::rules::d_rules(ms, pkgs, pkgs.len() as int)->Ok_0 + if all {
        crate::rules::e_rules(ms, pkgs, pkgs.len() as int)
    } else {
        Seq::<Rule>::empty()
    };
    assert(r1 =~= a1 + rest);
    assert(r2 =~= a2 + rest);
    lemma_a_rules_cover(ms, pkgs, toks1, toks1.len() as int);
    assert forall|k: int| 0 <= k < r1.len() implies r2.contains(#[trigger] r1[k]) by {
        if k < a1.len() {
            let a1full = a_rules(ms, pkgs, toks1, toks1.len() as int)->Ok_0;
            let q = choose|q: int|
                0 <= q < toks1.len() && token_rules(ms, pkgs, 0, Cond::Present(0), true, toks1[q])
                    ->Ok_0.contains(#[trigger] a1full[k]);
            assert(toks2.contains(toks1[q]));
            let q2 = choose|q2: int| 0 <= q2 < toks2.len() && toks2[q2] == toks1[q];
            lemma_a_rules_mem(ms, pkgs, toks2, q2, toks2.len() as int);
            let rt = token_rules(ms, pkgs, 0, Cond::Present(0), true, toks1[q])->Ok_0;
            let p = choose|p: int| 0 <= p < rt.len() && rt[p] == r1[k];
            assert(a2.contains(rt[p]));
            let w = choose|w: int| 0 <= w < a2.len() && a2[w] == r1[k];
            assert(r2[w] == r1[k]);
        } else {
            assert(r2[k - a1.len() + a2.len()] == r1[k]);
        }
    }
    crate::engine::lemma_included_monotone(m, r1, r2, n);
}

/// Every root-default seed is a one-premise rule activating a declared
/// feature of the root.
proof fn lemma_b_defaults_shape(
    ms: Seq<Manifest>,
    pkgs: Seq<crate::resolve::ResolvedPackage>,
    defs: Seq<u64>,
    q: int,
)
    requires
        0 <= q <= defs.len(),
        crate::rules::b_defaults(ms, pkgs, defs, q) is Ok,
    ensures
        forall|k: int|
            0 <= k < crate::rules::b_defaults(ms, pkgs, defs, q)->Ok_0.len() ==> {
                let r = #[trigger] crate::rules::b_defaults(ms, pkgs, defs, q)->Ok_0[k];
                r.prem_a == Some(Cond::Present(0)) && r.prem_b is None && (r.conclusion matches
                Cond::Feat(j, f) && j == 0 && crate::model::spec_declares_feature(
                    ms[pkgs[0].mi as int],
                    f,
                ))
            },
    decreases q,
{
    if q > 0 {
        lemma_b_defaults_shape(ms, pkgs, defs, q - 1);
    }
}

/// Under `--all-features`, `--no-default-features` is a no-op: the
/// activation fixpoints with and without it hold exactly the same
/// facts — the same packages present, the same features activated.
pub proof fn lemma_all_features_ndf_noop(
    ms: Seq<Manifest>,
    pkgs: Seq<crate::resolve::ResolvedPackage>,
    toks: Seq<FeatureToken>,
    r1: Seq<Rule>,
    r2: Seq<Rule>,
    c: Cond,
)
    requires
        crate::rules::wf_pkgs(ms, pkgs),
        spec_compile(ms, pkgs, true, false, toks) == Ok::<Seq<Rule>, ResolutionError>(r1),
        spec_compile(ms, pkgs, true, true, toks) == Ok::<Seq<Rule>, ResolutionError>(r2),
    ensures
        m_holds(m_iter(init_model(pkgs.len() as int), r1, (r1.len() + 1) as nat), c)
            <==> m_holds(m_iter(init_model(pkgs.len() as int), r2, (r2.len() + 1) as nat), c),
{
    let m = init_model(pkgs.len() as int);
    let ra = a_rules(ms, pkgs, toks, toks.len() as int)->Ok_0;
    let rb = b_rules(ms, pkgs, false)->Ok_0;
    let rc = crate::rules::c_rules(ms, pkgs, true, pkgs.len() as int)->Ok_0;
    let rd = crate::rules::d_rules(ms, pkgs, pkgs.len() as int)->Ok_0;
    let re = crate::rules::e_rules(ms, pkgs, pkgs.len() as int);
    assert(r1 == ra + rb + rc + rd + re);
    assert(b_rules(ms, pkgs, true)->Ok_0 =~= Seq::<Rule>::empty());
    assert(r2 =~= ra + rc + rd + re);

    // the smaller system is embedded in the larger one
    assert forall|k: int| 0 <= k < r2.len() implies r1.contains(#[trigger] r2[k]) by {
        if k < ra.len() {
            assert(r1[k] == r2[k]);
        } else {
            assert(r1[k + rb.len()] == r2[k]);
        }
    }

    // each root-default seed is one of the full-universe rules
    lemma_b_defaults_shape(ms, pkgs, ms[pkgs[0].mi as int].defaults@, ms[pkgs[0].mi as int].defaults@.len() as int);
    assert forall|k: int| 0 <= k < r1.len() implies r2.contains(#[trigger] r1[k]) by {
        if k < ra.len() {
            assert(r2[k] == r1[k]);
        } else if k < ra.len() + rb.len() {
            let r = rb[k - ra.len()];
            assert(r == r1[k]);
            match r.conclusion {
                Cond::Feat(j, f) => {
                    let root_m = ms[pkgs[0].mi as int];
                    assert(crate::model::spec_declares_feature(root_m, f));
                    let w = choose|w: int| 0 <= w < root_m.features@.len()
                        && root_m.features@[w].name == f;
                    lemma_e_rules_mem(ms, pkgs, 0, w, pkgs.len() as int);
                    let p = choose|p: int|
                        0 <= p < re.len() && (#[trigger] re[p]) == (Rule {
                            prem_a: Some(Cond::Present(0)),
                            prem_b: None,
                            conclusion: Cond::Feat(0, f),
                        });
                    assert(r2[ra.len() + rc.len() + rd.len() + p] == re[p]);
                    assert(r2[ra.len() + rc.len() + rd.len() + p] == r);
                },
                Cond::Present(_) => {
                    assert(false);
                },
            }
        } else {
            assert(r2[k - rb.len()] == r1[k]);
        }
    }

    crate::engine::lemma_included_monotone(m, r1, r2, (r1.len() + 1) as nat);
    crate::engine::lemma_included_monotone(m, r2, r1, (r2.len() + 1) as nat);
}

/// No-default-features reachability: with defaults suppressed and no
/// explicit tokens the compiled system is wiring and implications
/// alone, and activation stays inside every state that contains the
/// bare start and that those rules cannot grow — nothing outside the
/// wiring-reachable closure is ever activated.
pub proof fn lemma_no_defaults_reachability(
    ms: Seq<Manifest>,
    pkgs: Seq<crate::resolve::ResolvedPackage>,
    rules: Seq<Rule>,
    cap: StateModel,
    n: nat,
)
    requires
        spec_compile(ms, pkgs, false, true, Seq::<FeatureToken>::empty()) == Ok::<
            Seq<Rule>,
            ResolutionError,
        >(rules),
        crate::engine::m_le(init_model(pkgs.len() as int), cap),
        crate::engine::m_capped(cap, rules),
    ensures
        rules == crate::rules::c_rules(ms, pkgs, false, pkgs.len() as int)->Ok_0
            + crate::rules::d_rules(ms, pkgs, pkgs.len() as int)->Ok_0,
        crate::engine::m_le(m_iter(init_model(pkgs.len() as int), rules, n), cap),
{
    lemma_no_defaults_no_seeds(ms, pkgs);
    crate::engine::lemma_iter_below_capped(init_model(pkgs.len() as int), rules, cap, n);
}

/// The default-feature law: resolving with no flags at all equals
/// resolving with defaults suppressed and the root's declared default
/// features requested explicitly — defaults are exactly that closure.
pub proof fn lemma_defaults_are_explicit_defaults(
    ms: Seq<Manifest>,
    defs: Seq<u64>,
    pkgs: Seq<crate::resolve::ResolvedPackage>,
)
    requires
        pkgs.len() >= 1,
        defs == ms[pkgs[0].mi as int].defaults@,
    ensures
        spec_compile(ms, pkgs, false, false, Seq::<FeatureToken>::empty()) == spec_compile(
            ms,
            pkgs,
            false,
            true,
            defs.map_values(|f: u64| FeatureToken::Plain(f)),
        ),
{
    let toks = defs.map_values(|f: u64| FeatureToken::Plain(f));
    lemma_a_is_b(ms, pkgs, defs, defs.len() as int);
    assert(a_rules(ms, pkgs, Seq::<FeatureToken>::empty(), 0) == Ok::<
        Seq<Rule>,
        ResolutionError,
    >(Seq::empty()));
    let lhs = spec_compile(ms, pkgs, false, false, Seq::<FeatureToken>::empty());
    let rhs = spec_compile(ms, pkgs, false, true, toks);
    match b_rules(ms, pkgs, false) {
        Err(e) => {
            assert(a_rules(ms, pkgs, toks, toks.len() as int) == Err::<
                Seq<Rule>,
                ResolutionError,
            >(e));
        },
        Ok(rb) => {
            assert(a_rules(ms, pkgs, toks, toks.len() as int) == Ok::<
                Seq<Rule>,
                ResolutionError,
            >(rb));
            assert(b_rules(ms, pkgs, true) == Ok::<Seq<Rule>, ResolutionError>(Seq::empty()));
            match crate::rules::c_rules(ms, pkgs, false, pkgs.len() as int) {
                Err(_) => {},
                Ok(rc) => {
                    match crate::rules::d_rules(ms, pkgs, pkgs.len() as int) {
                        Err(_) => {},
                        Ok(rd) => {
                            assert(lhs->Ok_0 =~= rhs->Ok_0);
                            assert(lhs == rhs);
                        },
                    }
                },
            }
        },
    }
}

/// The slot each package's feature-universe rule occupies.
proof fn lemma_e_pkg_index(fds: Seq<crate::model::FeatureDecl>, i: int, p: int, q: int)
    requires
        0 <= q < p <= fds.len(),
    ensures
        crate::rules::e_pkg(fds, i, p).len() == p,
        crate::rules::e_pkg(fds, i, p)[q] == (Rule {
            prem_a: Some(Cond::Present(i as usize)),
            prem_b: None,
            conclusion: Cond::Feat(i as usize, fds[q].name),
        }),
    decreases p,
{
    lemma_e_pkg_len(fds, i, p - 1);
    if q < p - 1 {
        lemma_e_pkg_index(fds, i, p - 1, q);
    }
}

proof fn lemma_e_pkg_len(fds: Seq<crate::model::FeatureDecl>, i: int, p: int)
    requires
        0 <= p <= fds.len(),
    ensures
        crate::rules::e_pkg(fds, i, p).len() == p,
    decreases p,
{
    if p > 0 {
        lemma_e_pkg_len(fds, i, p - 1);
    }
}

/// The full-universe rules contain one rule per declared feature of
/// every package.
proof fn lemma_e_rules_mem(
    ms: Seq<Manifest>,
    pkgs: Seq<crate::resolve::ResolvedPackage>,
    i: int,
    q: int,
    n: int,
)
    requires
        0 <= i < n <= pkgs.len(),
        0 <= q < ms[pkgs[i].mi as int].features@.len(),
    ensures
        exists|k: int|
            0 <= k < crate::rules::e_rules(ms, pkgs, n).len() && (#[trigger] crate::rules::e_rules(
                ms,
                pkgs,
                n,
            )[k]) == (Rule {
                prem_a: Some(Cond::Present(i as usize)),
                prem_b: None,
                conclusion: Cond::Feat(i as usize, ms[pkgs[i].mi as int].features@[q].name),
            }),
    decreases n,
{
    let target = Rule {
        prem_a: Some(Cond::Present(i as usize)),
        prem_b: None,
        conclusion: Cond::Feat(i as usize, ms[pkgs[i].mi as int].features@[q].name),
    };
    let fds = ms[pkgs[n - 1].mi as int].features@;
    if i == n - 1 {
        lemma_e_pkg_index(fds, i, fds.len() as int, q);
        let k = crate::rules::e_rules(ms, pkgs, n - 1).len() + q;
        assert(crate::rules::e_rules(ms, pkgs, n)[k as int] == target);
    } else {
        lemma_e_rules_mem(ms, pkgs, i, q, n - 1);
        let k = choose|k: int|
            0 <= k < crate::rules::e_rules(ms, pkgs, n - 1).len() && (#[trigger] crate::rules::e_rules(
                ms,
                pkgs,
                n - 1,
            )[k]) == target;
        assert(crate::rules::e_rules(ms, pkgs, n)[k] == target);
    }
}

/// The all-features law: under `--all-features` — with or without
/// `--no-default-features`, which is then a no-op — every feature a
/// present package declares is activated at the resolved fixpoint.
pub proof fn lemma_all_features(
    ms: Seq<Manifest>,
    pkgs: Seq<crate::resolve::ResolvedPackage>,
    ndf: bool,
    toks: Seq<FeatureToken>,
    rules: Seq<Rule>,
    st: StateModel,
    i: usize,
    q: int,
)
    requires
        crate::rules::wf_pkgs(ms, pkgs),
        spec_compile(ms, pkgs, true, ndf, toks) == Ok::<Seq<Rule>, ResolutionError>(rules),
        st == m_iter(init_model(pkgs.len() as int), rules, (rules.len() + 1) as nat),
        (i as int) < pkgs.len(),
        m_holds(st, Cond::Present(i)),
        0 <= q < ms[pkgs[i as int].mi as int].features@.len(),
    ensures
        m_holds(st, Cond::Feat(i, ms[pkgs[i as int].mi as int].features@[q].name)),
{
    let target = Rule {
        prem_a: Some(Cond::Present(i)),
        prem_b: None,
        conclusion: Cond::Feat(i, ms[pkgs[i as int].mi as int].features@[q].name),
    };
    crate::engine::lemma_fixpoint_reached(init_model(pkgs.len() as int), rules);
    lemma_e_rules_mem(ms, pkgs, i as int, q, pkgs.len() as int);
    let re = crate::rules::e_rules(ms, pkgs, pkgs.len() as int);
    let k = choose|k: int| 0 <= k < re.len() && (#[trigger] re[k]) == target;
    let prefix = a_rules(ms, pkgs, toks, toks.len() as int)->Ok_0 + b_rules(ms, pkgs, ndf)->Ok_0
        + crate::rules::c_rules(ms, pkgs, true, pkgs.len() as int)->Ok_0 + crate::rules::d_rules(
        ms,
        pkgs,
        pkgs.len() as int,
    )->Ok_0;
    assert(rules == prefix + re);
    let idx = prefix.len() + k;
    assert(rules[idx as int] == target);
    crate::engine::lemma_iter_le(
        init_model(pkgs.len() as int),
        rules,
        0,
        (rules.len() + 1) as nat,
    );
    assert(st.feats.len() == pkgs.len());
    crate::engine::lemma_fix_closed(st, rules, idx as int);
}

/// Requesting a default feature explicitly compiles to exactly the rule
/// its default seeding compiles to.
proof fn lemma_a_is_b(
    ms: Seq<Manifest>,
    pkgs: Seq<crate::resolve::ResolvedPackage>,
    defs: Seq<u64>,
    q: int,
)
    requires
        pkgs.len() >= 1,
        q <= defs.len(),
    ensures
        a_rules(ms, pkgs, defs.map_values(|f: u64| FeatureToken::Plain(f)), q)
            == crate::rules::b_defaults(ms, pkgs, defs, q),
    decreases q,
{
    let toks = defs.map_values(|f: u64| FeatureToken::Plain(f));
    if q > 0 {
        lemma_a_is_b(ms, pkgs, defs, q - 1);
        assert(toks[q - 1] == FeatureToken::Plain(defs[q - 1]));
        match crate::rules::b_defaults(ms, pkgs, defs, q - 1) {
            Err(_) => {},
            Ok(rs) => {
                match token_rules(ms, pkgs, 0, Cond::Present(0), true, toks[q - 1]) {
                    Err(_) => {},
                    Ok(rt) => {
                        assert(rs + rt =~= rs.push(rt[0]));
                    },
                }
            },
        }
    }
}

} // verus!
