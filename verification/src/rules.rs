//! Compiles a resolved graph and a feature selection into the rule
//! system the activation engine runs: every wiring fact becomes one
//! implication, and every referenced feature or dependency is checked
//! to exist while it is compiled.

use vstd::prelude::*;
use crate::engine::{Cond, Rule};
use crate::model::{
    CliFeatureSelection, DepKind, DependencyDeclaration, FeatureDecl, FeatureToken, Manifest,
    ResolutionError, declares_feature, spec_declares_feature,
};
use crate::resolve::ResolvedPackage;

verus! {

/// Shape of a resolved-package list the compiler can work on.
pub open spec fn wf_pkgs(ms: Seq<Manifest>, pkgs: Seq<ResolvedPackage>) -> bool {
    &&& pkgs.len() >= 1
    &&& forall|k: int| 0 <= k < pkgs.len() ==> (#[trigger] pkgs[k].mi as int) < ms.len()
}

/// First normal-kind declaration with the given name.
pub open spec fn find_decl_from(
    deps: Seq<DependencyDeclaration>,
    name: u64,
    k: int,
) -> Option<int>
    decreases deps.len() - k,
{
    if k < 0 || k >= deps.len() {
        None
    } else if deps[k].kind == DepKind::Normal && deps[k].name == name {
        Some(k)
    } else {
        find_decl_from(deps, name, k + 1)
    }
}

/// The resolved node a declaration points at: first package with the
/// declared name and origin whose chosen version satisfies the range.
pub open spec fn find_target_from(
    pkgs: Seq<ResolvedPackage>,
    d: DependencyDeclaration,
    k: int,
) -> Option<int>
    decreases pkgs.len() - k,
{
    if k < 0 || k >= pkgs.len() {
        None
    } else if pkgs[k].identity.name == d.name && pkgs[k].identity.origin == d.origin
        && d.req.spec_matches(pkgs[k].identity.version) {
        Some(k)
    } else {
        find_target_from(pkgs, d, k + 1)
    }
}

/// The rules for one feature token, under the given premise.
pub open spec fn token_rules(
    ms: Seq<Manifest>,
    pkgs: Seq<ResolvedPackage>,
    i: int,
    prem: Cond,
    from_cli: bool,
    t: FeatureToken,
) -> Result<Seq<Rule>, ResolutionError> {
    let m = ms[pkgs[i].mi as int];
    match t {
        FeatureToken::Plain(g) => if spec_declares_feature(m, g) {
            Ok(
                seq![
                    Rule {
                        prem_a: Some(prem),
                        prem_b: None,
                        conclusion: Cond::Feat(i as usize, g),
                    },
                ],
            )
        } else {
            Err(ResolutionError::UnknownFeature { package: m.name, feature: g })
        },
        FeatureToken::Dependency(dn, h) => match find_decl_from(m.deps@, dn, 0) {
            None => if from_cli {
                Err(ResolutionError::InvalidSelection { package: dn })
            } else {
                Err(ResolutionError::UnknownFeature { package: m.name, feature: dn })
            },
            Some(di) => match find_target_from(pkgs, m.deps@[di], 0) {
                None => Err(ResolutionError::ManifestUnavailable { name: dn }),
                Some(j) => if spec_declares_feature(ms[pkgs[j].mi as int], h) {
                    Ok(
                        seq![
                            Rule {
                                prem_a: Some(prem),
                                prem_b: None,
                                conclusion: Cond::Present(j as usize),
                            },
                            Rule {
                                prem_a: Some(prem),
                                prem_b: None,
                                conclusion: Cond::Feat(j as usize, h),
                            },
                        ],
                    )
                } else {
                    Err(
                        ResolutionError::UnknownFeature {
                            package: ms[pkgs[j].mi as int].name,
                            feature: h,
                        },
                    )
                },
            },
        },
        FeatureToken::WeakDependency(dn, h) => match find_decl_from(m.deps@, dn, 0) {
            None => if from_cli {
                Err(ResolutionError::InvalidSelection { package: dn })
            } else {
                Err(ResolutionError::UnknownFeature { package: m.name, feature: dn })
            },
            Some(di) => match find_target_from(pkgs, m.deps@[di], 0) {
                None => Err(ResolutionError::ManifestUnavailable { name: dn }),
                Some(j) => if spec_declares_feature(ms[pkgs[j].mi as int], h) {
                    Ok(
                        seq![
                            Rule {
                                prem_a: Some(prem),
                                prem_b: Some(Cond::Present(j as usize)),
                                conclusion: Cond::Feat(j as usize, h),
                            },
                        ],
                    )
                } else {
                    Err(
                        ResolutionError::UnknownFeature {
                            package: ms[pkgs[j].mi as int].name,
                            feature: h,
                        },
                    )
                },
            },
        },
        FeatureToken::OptionalDep(dn) => match find_decl_from(m.deps@, dn, 0) {
            None => if from_cli {
                Err(ResolutionError::InvalidSelection { package: dn })
            } else {
                Err(ResolutionError::UnknownFeature { package: m.name, feature: dn })
            },
            Some(di) => match find_target_from(pkgs, m.deps@[di], 0) {
                None => Err(ResolutionError::ManifestUnavailable { name: dn }),
                Some(j) => Ok(
                    seq![
                        Rule {
                            prem_a: Some(prem),
                            prem_b: None,
                            conclusion: Cond::Present(j as usize),
                        },
                    ],
                ),
            },
        },
    }
}

/// The caller's explicit tokens, evaluated on the root package.
pub open spec fn a_rules(
    ms: Seq<Manifest>,
    pkgs: Seq<ResolvedPackage>,
    toks: Seq<FeatureToken>,
    q: int,
) -> Result<Seq<Rule>, ResolutionError>
    decreases q,
{
    if q <= 0 || q > toks.len() {
        Ok(Seq::empty())
    } else {
        match a_rules(ms, pkgs, toks, q - 1) {
            Err(e) => Err(e),
            Ok(rs) => match token_rules(ms, pkgs, 0, Cond::Present(0), true, toks[q - 1]) {
                Err(e) => Err(e),
                Ok(rt) => Ok(rs + rt),
            },
        }
    }
}

/// The root package's default features, unless suppressed.
pub open spec fn b_defaults(
    ms: Seq<Manifest>,
    pkgs: Seq<ResolvedPackage>,
    defs: Seq<u64>,
    q: int,
) -> Result<Seq<Rule>, ResolutionError>
    decreases q,
{
    if q <= 0 || q > defs.len() {
        Ok(Seq::empty())
    } else {
        match b_defaults(ms, pkgs, defs, q - 1) {
            Err(e) => Err(e),
            Ok(rs) => {
                let m = ms[pkgs[0].mi as int];
                let f = defs[q - 1];
                if spec_declares_feature(m, f) {
                    Ok(
                        rs.push(
                            Rule {
                                prem_a: Some(Cond::Present(0)),
                                prem_b: None,
                                conclusion: Cond::Feat(0, f),
                            },
                        ),
                    )
                } else {
                    Err(ResolutionError::UnknownFeature { package: m.name, feature: f })
                }
            },
        }
    }
}

pub open spec fn b_rules(
    ms: Seq<Manifest>,
    pkgs: Seq<ResolvedPackage>,
    ndf: bool,
) -> Result<Seq<Rule>, ResolutionError> {
    if ndf {
        Ok(Seq::empty())
    } else {
        let defs = ms[pkgs[0].mi as int].defaults@;
        b_defaults(ms, pkgs, defs, defs.len() as int)
    }
}

/// The features one requirer asks of one dependency edge.
pub open spec fn edge_feats(
    ms: Seq<Manifest>,
    pkgs: Seq<ResolvedPackage>,
    i: int,
    j: int,
    feats: Seq<u64>,
    q: int,
) -> Result<Seq<Rule>, ResolutionError>
    decreases q,
{
    if q <= 0 || q > feats.len() {
        Ok(Seq::empty())
    } else {
        match edge_feats(ms, pkgs, i, j, feats, q - 1) {
            Err(e) => Err(e),
            Ok(rs) => {
                let jm = ms[pkgs[j].mi as int];
                let f = feats[q - 1];
                if spec_declares_feature(jm, f) {
                    Ok(
                        rs.push(
                            Rule {
                                prem_a: Some(Cond::Present(i as usize)),
                                prem_b: Some(Cond::Present(j as usize)),
                                conclusion: Cond::Feat(j as usize, f),
                            },
                        ),
                    )
                } else {
                    Err(ResolutionError::UnknownFeature { package: jm.name, feature: f })
                }
            },
        }
    }
}

/// A dependency's own default features, when the requirer wants them.
pub open spec fn edge_defaults(
    ms: Seq<Manifest>,
    pkgs: Seq<ResolvedPackage>,
    i: int,
    j: int,
    defs: Seq<u64>,
    q: int,
) -> Result<Seq<Rule>, ResolutionError>
    decreases q,
{
    if q <= 0 || q > defs.len() {
        Ok(Seq::empty())
    } else {
        match edge_defaults(ms, pkgs, i, j, defs, q - 1) {
            Err(e) => Err(e),
            Ok(rs) => {
                let jm = ms[pkgs[j].mi as int];
                let f = defs[q - 1];
                if spec_declares_feature(jm, f) {
                    Ok(
                        rs.push(
                            Rule {
                                prem_a: Some(Cond::Present(i as usize)),
                                prem_b: Some(Cond::Present(j as usize)),
                                conclusion: Cond::Feat(j as usize, f),
                            },
                        ),
                    )
                } else {
                    Err(ResolutionError::UnknownFeature { package: jm.name, feature: f })
                }
            },
        }
    }
}

/// Every rule one declaration contributes: presence wiring, requested
/// sub-features, and the dependency's defaults.
pub open spec fn decl_rules(
    ms: Seq<Manifest>,
    pkgs: Seq<ResolvedPackage>,
    i: int,
    d: DependencyDeclaration,
    all: bool,
) -> Result<Seq<Rule>, ResolutionError> {
    match find_target_from(pkgs, d, 0) {
        None => Err(ResolutionError::ManifestUnavailable { name: d.name }),
        Some(j) => {
            let presence: Seq<Rule> = if !d.optional || all {
                seq![
                    Rule {
                        prem_a: Some(Cond::Present(i as usize)),
                        prem_b: None,
                        conclusion: Cond::Present(j as usize),
                    },
                ]
            } else {
                Seq::empty()
            };
            match edge_feats(ms, pkgs, i, j, d.features@, d.features@.len() as int) {
                Err(e) => Err(e),
                Ok(ef) => if d.default_features {
                    let defs = ms[pkgs[j].mi as int].defaults@;
                    match edge_defaults(ms, pkgs, i, j, defs, defs.len() as int) {
                        Err(e) => Err(e),
                        Ok(ed) => Ok(presence + ef + ed),
                    }
                } else {
                    Ok(presence + ef)
                },
            }
        },
    }
}

pub open spec fn decls_rules(
    ms: Seq<Manifest>,
    pkgs: Seq<ResolvedPackage>,
    i: int,
    deps: Seq<DependencyDeclaration>,
    all: bool,
    q: int,
) -> Result<Seq<Rule>, ResolutionError>
    decreases q,
{
    if q <= 0 || q > deps.len() {
        Ok(Seq::empty())
    } else {
        match decls_rules(ms, pkgs, i, deps, all, q - 1) {
            Err(e) => Err(e),
            Ok(rs) => if deps[q - 1].kind != DepKind::Normal {
                Ok(rs)
            } else {
                match decl_rules(ms, pkgs, i, deps[q - 1], all) {
                    Err(e) => Err(e),
                    Ok(rd) => Ok(rs + rd),
                }
            },
        }
    }
}

/// Edge rules of the whole graph.
pub open spec fn c_rules(
    ms: Seq<Manifest>,
    pkgs: Seq<ResolvedPackage>,
    all: bool,
    i: int,
) -> Result<Seq<Rule>, ResolutionError>
    decreases i,
{
    if i <= 0 || i > pkgs.len() {
        Ok(Seq::empty())
    } else {
        match c_rules(ms, pkgs, all, i - 1) {
            Err(e) => Err(e),
            Ok(rs) => {
                let deps = ms[pkgs[i - 1].mi as int].deps@;
                match decls_rules(ms, pkgs, i - 1, deps, all, deps.len() as int) {
                    Err(e) => Err(e),
                    Ok(rd) => Ok(rs + rd),
                }
            },
        }
    }
}

/// Implication rules of one package's declared features.
pub open spec fn feat_tokens(
    ms: Seq<Manifest>,
    pkgs: Seq<ResolvedPackage>,
    i: int,
    fname: u64,
    toks: Seq<FeatureToken>,
    q: int,
) -> Result<Seq<Rule>, ResolutionError>
    decreases q,
{
    if q <= 0 || q > toks.len() {
        Ok(Seq::empty())
    } else {
        match feat_tokens(ms, pkgs, i, fname, toks, q - 1) {
            Err(e) => Err(e),
            Ok(rs) => match token_rules(
                ms,
                pkgs,
                i,
                Cond::Feat(i as usize, fname),
                false,
                toks[q - 1],
            ) {
                Err(e) => Err(e),
                Ok(rt) => Ok(rs + rt),
            },
        }
    }
}

pub open spec fn feats_rules(
    ms: Seq<Manifest>,
    pkgs: Seq<ResolvedPackage>,
    i: int,
    fds: Seq<FeatureDecl>,
    p: int,
) -> Result<Seq<Rule>, ResolutionError>
    decreases p,
{
    if p <= 0 || p > fds.len() {
        Ok(Seq::empty())
    } else {
        match feats_rules(ms, pkgs, i, fds, p - 1) {
            Err(e) => Err(e),
            Ok(rs) => {
                let fd = fds[p - 1];
                match feat_tokens(ms, pkgs, i, fd.name, fd.implies@, fd.implies@.len() as int) {
                    Err(e) => Err(e),
                    Ok(rt) => Ok(rs + rt),
                }
            },
        }
    }
}

/// Feature-implication rules of the whole graph.
pub open spec fn d_rules(
    ms: Seq<Manifest>,
    pkgs: Seq<ResolvedPackage>,
    i: int,
) -> Result<Seq<Rule>, ResolutionError>
    decreases i,
{
    if i <= 0 || i > pkgs.len() {
        Ok(Seq::empty())
    } else {
        match d_rules(ms, pkgs, i - 1) {
            Err(e) => Err(e),
            Ok(rs) => {
                let fds = ms[pkgs[i - 1].mi as int].features@;
                match feats_rules(ms, pkgs, i - 1, fds, fds.len() as int) {
                    Err(e) => Err(e),
                    Ok(rt) => Ok(rs + rt),
                }
            },
        }
    }
}

/// Under `--all-features`: every declared feature of every present
/// package, with no validation to fail.
pub open spec fn e_pkg(fds: Seq<FeatureDecl>, i: int, p: int) -> Seq<Rule>
    decreases p,
{
    if p <= 0 || p > fds.len() {
        Seq::empty()
    } else {
        e_pkg(fds, i, p - 1).push(
            Rule {
                prem_a: Some(Cond::Present(i as usize)),
                prem_b: None,
                conclusion: Cond::Feat(i as usize, fds[p - 1].name),
            },
        )
    }
}

pub open spec fn e_rules(ms: Seq<Manifest>, pkgs: Seq<ResolvedPackage>, i: int) -> Seq<Rule>
    decreases i,
{
    if i <= 0 || i > pkgs.len() {
        Seq::empty()
    } else {
        let fds = ms[pkgs[i - 1].mi as int].features@;
        e_rules(ms, pkgs, i - 1) + e_pkg(fds, i - 1, fds.len() as int)
    }
}

/// The whole rule system of one resolution request, or its first
/// invalid reference.
pub open spec fn spec_compile(
    ms: Seq<Manifest>,
    pkgs: Seq<ResolvedPackage>,
    all: bool,
    ndf: bool,
    toks: Seq<FeatureToken>,
) -> Result<Seq<Rule>, ResolutionError> {
    match a_rules(ms, pkgs, toks, toks.len() as int) {
        Err(e) => Err(e),
        Ok(ra) => match b_rules(ms, pkgs, ndf) {
            Err(e) => Err(e),
            Ok(rb) => match c_rules(ms, pkgs, all, pkgs.len() as int) {
                Err(e) => Err(e),
                Ok(rc) => match d_rules(ms, pkgs, pkgs.len() as int) {
                    Err(e) => Err(e),
                    Ok(rd) => Ok(
                        ra + rb + rc + rd + if all {
                            e_rules(ms, pkgs, pkgs.len() as int)
                        } else {
                            Seq::empty()
                        },
                    ),
                },
            },
        },
    }
}

fn find_decl(deps: &Vec<DependencyDeclaration>, name: u64) -> (r: Option<usize>)
    ensures
        match r {
            Some(k) => (k as int) < deps@.len() && find_decl_from(deps@, name, 0) == Some(
                k as int,
            ),
            None => find_decl_from(deps@, name, 0) is None,
        },
{
    let mut k: usize = 0;
    while k < deps.len()
        invariant
            k <= deps@.len(),
            find_decl_from(deps@, name, 0) == find_decl_from(deps@, name, k as int),
        decreases deps@.len() - k,
    {
        if matches!(deps[k].kind, DepKind::Normal) && deps[k].name == name {
            return Some(k);
        }
        k += 1;
    }
    None
}

pub(crate) fn find_target(pkgs: &Vec<ResolvedPackage>, d: &DependencyDeclaration) -> (r: Option<usize>)
    ensures
        match r {
            Some(k) => (k as int) < pkgs@.len() && find_target_from(pkgs@, *d, 0) == Some(
                k as int,
            ),
            None => find_target_from(pkgs@, *d, 0) is None,
        },
{
    let mut k: usize = 0;
    while k < pkgs.len()
        invariant
            k <= pkgs@.len(),
            find_target_from(pkgs@, *d, 0) == find_target_from(pkgs@, *d, k as int),
        decreases pkgs@.len() - k,
    {
        let p = &pkgs[k];
        if p.identity.name == d.name && p.identity.origin == d.origin && d.req.matches(
            &p.identity.version,
        ) {
            return Some(k);
        }
        k += 1;
    }
    None
}

/// Appends the rules of one token; on an invalid reference nothing of
/// the result is kept by the caller.
fn push_token(
    ms: &Vec<Manifest>,
    pkgs: &Vec<ResolvedPackage>,
    i: usize,
    prem: Cond,
    from_cli: bool,
    t: FeatureToken,
    rules: &mut Vec<Rule>,
) -> (r: Result<(), ResolutionError>)
    requires
        wf_pkgs(ms@, pkgs@),
        (i as int) < pkgs@.len(),
    ensures
        match r {
            Ok(_) => ({
                &&& token_rules(ms@, pkgs@, i as int, prem, from_cli, t) is Ok
                &&& (*final(rules))@ == old(rules)@ + token_rules(
                    ms@,
                    pkgs@,
                    i as int,
                    prem,
                    from_cli,
                    t,
                )->Ok_0
            }),
            Err(e) => token_rules(ms@, pkgs@, i as int, prem, from_cli, t) == Err::<
                Seq<Rule>,
                ResolutionError,
            >(e),
        },
{
    let m = &ms[pkgs[i].mi];
    match t {
        FeatureToken::Plain(g) => {
            if declares_feature(m, g) {
                rules.push(Rule { prem_a: Some(prem), prem_b: None, conclusion: Cond::Feat(i, g) });
                assert((*rules)@ =~= old(rules)@ + token_rules(
                    ms@,
                    pkgs@,
                    i as int,
                    prem,
                    from_cli,
                    t,
                )->Ok_0);
                Ok(())
            } else {
                Err(ResolutionError::UnknownFeature { package: m.name, feature: g })
            }
        },
        FeatureToken::Dependency(dn, h) => {
            match find_decl(&m.deps, dn) {
                None => if from_cli {
                    Err(ResolutionError::InvalidSelection { package: dn })
                } else {
                    Err(ResolutionError::UnknownFeature { package: m.name, feature: dn })
                },
                Some(di) => match find_target(pkgs, &m.deps[di]) {
                    None => Err(ResolutionError::ManifestUnavailable { name: dn }),
                    Some(j) => {
                        let jm = &ms[pkgs[j].mi];
                        if declares_feature(jm, h) {
                            rules.push(
                                Rule {
                                    prem_a: Some(prem),
                                    prem_b: None,
                                    conclusion: Cond::Present(j),
                                },
                            );
                            rules.push(
                                Rule {
                                    prem_a: Some(prem),
                                    prem_b: None,
                                    conclusion: Cond::Feat(j, h),
                                },
                            );
                            assert((*rules)@ =~= old(rules)@ + token_rules(
                                ms@,
                                pkgs@,
                                i as int,
                                prem,
                                from_cli,
                                t,
                            )->Ok_0);
                            Ok(())
                        } else {
                            Err(ResolutionError::UnknownFeature { package: jm.name, feature: h })
                        }
                    },
                },
            }
        },
        FeatureToken::WeakDependency(dn, h) => {
            match find_decl(&m.deps, dn) {
                None => if from_cli {
                    Err(ResolutionError::InvalidSelection { package: dn })
                } else {
                    Err(ResolutionError::UnknownFeature { package: m.name, feature: dn })
                },
                Some(di) => match find_target(pkgs, &m.deps[di]) {
                    None => Err(ResolutionError::ManifestUnavailable { name: dn }),
                    Some(j) => {
                        let jm = &ms[pkgs[j].mi];
                        if declares_feature(jm, h) {
                            rules.push(
                                Rule {
                                    prem_a: Some(prem),
                                    prem_b: Some(Cond::Present(j)),
                                    conclusion: Cond::Feat(j, h),
                                },
                            );
                            assert((*rules)@ =~= old(rules)@ + token_rules(
                                ms@,
                                pkgs@,
                                i as int,
                                prem,
                                from_cli,
                                t,
                            )->Ok_0);
                            Ok(())
                        } else {
                            Err(ResolutionError::UnknownFeature { package: jm.name, feature: h })
                        }
                    },
                },
            }
        },
        FeatureToken::OptionalDep(dn) => {
            match find_decl(&m.deps, dn) {
                None => if from_cli {
                    Err(ResolutionError::InvalidSelection { package: dn })
                } else {
                    Err(ResolutionError::UnknownFeature { package: m.name, feature: dn })
                },
                Some(di) => match find_target(pkgs, &m.deps[di]) {
                    None => Err(ResolutionError::ManifestUnavailable { name: dn }),
                    Some(j) => {
                        rules.push(
                            Rule {
                                prem_a: Some(prem),
                                prem_b: None,
                                conclusion: Cond::Present(j),
                            },
                        );
                        assert((*rules)@ =~= old(rules)@ + token_rules(
                            ms@,
                            pkgs@,
                            i as int,
                            prem,
                            from_cli,
                            t,
                        )->Ok_0);
                        Ok(())
                    },
                },
            }
        },
    }
}

/// An invalid reference met part-way through a fold is the fold's result.
proof fn lemma_a_err(
    ms: Seq<Manifest>,
    pkgs: Seq<ResolvedPackage>,
    toks: Seq<FeatureToken>,
    q: int,
    n: int,
)
    requires
        0 <= q <= n <= toks.len(),
        a_rules(ms, pkgs, toks, q) is Err,
    ensures
        a_rules(ms, pkgs, toks, n) == a_rules(ms, pkgs, toks, q),
    decreases n - q,
{
    if n > q {
        lemma_a_err(ms, pkgs, toks, q, n - 1);
    }
}

proof fn lemma_b_err(
    ms: Seq<Manifest>,
    pkgs: Seq<ResolvedPackage>,
    defs: Seq<u64>,
    q: int,
    n: int,
)
    requires
        0 <= q <= n <= defs.len(),
        b_defaults(ms, pkgs, defs, q) is Err,
    ensures
        b_defaults(ms, pkgs, defs, n) == b_defaults(ms, pkgs, defs, q),
    decreases n - q,
{
    if n > q {
        lemma_b_err(ms, pkgs, defs, q, n - 1);
    }
}

proof fn lemma_edge_feats_err(
    ms: Seq<Manifest>,
    pkgs: Seq<ResolvedPackage>,
    i: int,
    j: int,
    feats: Seq<u64>,
    q: int,
    n: int,
)
    requires
        0 <= q <= n <= feats.len(),
        edge_feats(ms, pkgs, i, j, feats, q) is Err,
    ensures
        edge_feats(ms, pkgs, i, j, feats, n) == edge_feats(ms, pkgs, i, j, feats, q),
    decreases n - q,
{
    if n > q {
        lemma_edge_feats_err(ms, pkgs, i, j, feats, q, n - 1);
    }
}

proof fn lemma_edge_defaults_err(
    ms: Seq<Manifest>,
    pkgs: Seq<ResolvedPackage>,
    i: int,
    j: int,
    defs: Seq<u64>,
    q: int,
    n: int,
)
    requires
        0 <= q <= n <= defs.len(),
        edge_defaults(ms, pkgs, i, j, defs, q) is Err,
    ensures
        edge_defaults(ms, pkgs, i, j, defs, n) == edge_defaults(ms, pkgs, i, j, defs, q),
    decreases n - q,
{
    if n > q {
        lemma_edge_defaults_err(ms, pkgs, i, j, defs, q, n - 1);
    }
}

proof fn lemma_decls_err(
    ms: Seq<Manifest>,
    pkgs: Seq<ResolvedPackage>,
    i: int,
    deps: Seq<DependencyDeclaration>,
    all: bool,
    q: int,
    n: int,
)
    requires
        0 <= q <= n <= deps.len(),
        decls_rules(ms, pkgs, i, deps, all, q) is Err,
    ensures
        decls_rules(ms, pkgs, i, deps, all, n) == decls_rules(ms, pkgs, i, deps, all, q),
    decreases n - q,
{
    if n > q {
        lemma_decls_err(ms, pkgs, i, deps, all, q, n - 1);
    }
}

proof fn lemma_c_err(ms: Seq<Manifest>, pkgs: Seq<ResolvedPackage>, all: bool, q: int, n: int)
    requires
        0 <= q <= n <= pkgs.len(),
        c_rules(ms, pkgs, all, q) is Err,
    ensures
        c_rules(ms, pkgs, all, n) == c_rules(ms, pkgs, all, q),
    decreases n - q,
{
    if n > q {
        lemma_c_err(ms, pkgs, all, q, n - 1);
    }
}

proof fn lemma_feat_tokens_err(
    ms: Seq<Manifest>,
    pkgs: Seq<ResolvedPackage>,
    i: int,
    fname: u64,
    toks: Seq<FeatureToken>,
    q: int,
    n: int,
)
    requires
        0 <= q <= n <= toks.len(),
        feat_tokens(ms, pkgs, i, fname, toks, q) is Err,
    ensures
        feat_tokens(ms, pkgs, i, fname, toks, n) == feat_tokens(ms, pkgs, i, fname, toks, q),
    decreases n - q,
{
    if n > q {
        lemma_feat_tokens_err(ms, pkgs, i, fname, toks, q, n - 1);
    }
}

proof fn lemma_feats_err(
    ms: Seq<Manifest>,
    pkgs: Seq<ResolvedPackage>,
    i: int,
    fds: Seq<FeatureDecl>,
    q: int,
    n: int,
)
    requires
        0 <= q <= n <= fds.len(),
        feats_rules(ms, pkgs, i, fds, q) is Err,
    ensures
        feats_rules(ms, pkgs, i, fds, n) == feats_rules(ms, pkgs, i, fds, q),
    decreases n - q,
{
    if n > q {
        lemma_feats_err(ms, pkgs, i, fds, q, n - 1);
    }
}

proof fn lemma_d_err(ms: Seq<Manifest>, pkgs: Seq<ResolvedPackage>, q: int, n: int)
    requires
        0 <= q <= n <= pkgs.len(),
        d_rules(ms, pkgs, q) is Err,
    ensures
        d_rules(ms, pkgs, n) == d_rules(ms, pkgs, q),
    decreases n - q,
{
    if n > q {
        lemma_d_err(ms, pkgs, q, n - 1);
    }
}


/// Appends every rule one declaration contributes.
fn push_decl_rules(
    ms: &Vec<Manifest>,
    pkgs: &Vec<ResolvedPackage>,
    i: usize,
    d: &DependencyDeclaration,
    all: bool,
    rules: &mut Vec<Rule>,
) -> (r: Result<(), ResolutionError>)
    requires
        wf_pkgs(ms@, pkgs@),
        (i as int) < pkgs@.len(),
    ensures
        match r {
            Ok(_) => ({
                &&& decl_rules(ms@, pkgs@, i as int, *d, all) is Ok
                &&& (*final(rules))@ == old(rules)@ + decl_rules(
                    ms@,
                    pkgs@,
                    i as int,
                    *d,
                    all,
                )->Ok_0
            }),
            Err(e) => decl_rules(ms@, pkgs@, i as int, *d, all) == Err::<
                Seq<Rule>,
                ResolutionError,
            >(e),
        },
{
    match find_target(pkgs, d) {
        None => Err(ResolutionError::ManifestUnavailable { name: d.name }),
        Some(j) => {
            if !d.optional || all {
                rules.push(
                    Rule {
                        prem_a: Some(Cond::Present(i)),
                        prem_b: None,
                        conclusion: Cond::Present(j),
                    },
                );
            }
            let ghost presence: Seq<Rule> = if !d.optional || all {
                seq![
                    Rule {
                        prem_a: Some(Cond::Present(i)),
                        prem_b: None,
                        conclusion: Cond::Present(j),
                    },
                ]
            } else {
                Seq::empty()
            };
            let ghost base = rules@;
            assert(base =~= old(rules)@ + presence);
            assert(rules@.take(base.len() as int) =~= base);
            assert(rules@.skip(base.len() as int) =~= Seq::<Rule>::empty());
            let mut q: usize = 0;
            while q < d.features.len()
                invariant
                    wf_pkgs(ms@, pkgs@),
                    (i as int) < pkgs@.len(),
                    (j as int) < pkgs@.len(),
                    find_target_from(pkgs@, *d, 0) == Some(j as int),
                    q <= d.features@.len(),
                    rules@.len() >= base.len(),
                    rules@.take(base.len() as int) == base,
                    edge_feats(ms@, pkgs@, i as int, j as int, d.features@, q as int) == Ok::<
                        Seq<Rule>,
                        ResolutionError,
                    >(rules@.skip(base.len() as int)),
                decreases d.features@.len() - q,
            {
                let f = d.features[q];
                let jm = &ms[pkgs[j].mi];
                if declares_feature(jm, f) {
                    rules.push(
                        Rule {
                            prem_a: Some(Cond::Present(i)),
                            prem_b: Some(Cond::Present(j)),
                            conclusion: Cond::Feat(j, f),
                        },
                    );
                    assert(rules@.take(base.len() as int) =~= base);
                    assert(rules@.skip(base.len() as int) =~= edge_feats(
                        ms@,
                        pkgs@,
                        i as int,
                        j as int,
                        d.features@,
                        q as int,
                    )->Ok_0.push(rules@[rules@.len() - 1]));
                } else {
                    proof {
                        lemma_edge_feats_err(
                            ms@,
                            pkgs@,
                            i as int,
                            j as int,
                            d.features@,
                            q + 1,
                            d.features@.len() as int,
                        );
                    }
                    return Err(ResolutionError::UnknownFeature { package: jm.name, feature: f });
                }
                q += 1;
            }
            let ghost withf = rules@;
            let ghost ef = withf.skip(base.len() as int);
            assert(withf =~= base + ef);
            if d.default_features {
                let jmi = pkgs[j].mi;
                let ghost defs = ms@[jmi as int].defaults@;
                assert(rules@.take(withf.len() as int) =~= withf);
                assert(rules@.skip(withf.len() as int) =~= Seq::<Rule>::empty());
                let mut q2: usize = 0;
                while q2 < ms[jmi].defaults.len()
                    invariant
                        wf_pkgs(ms@, pkgs@),
                        (i as int) < pkgs@.len(),
                        (j as int) < pkgs@.len(),
                        find_target_from(pkgs@, *d, 0) == Some(j as int),
                        edge_feats(
                            ms@,
                            pkgs@,
                            i as int,
                            j as int,
                            d.features@,
                            d.features@.len() as int,
                        ) is Ok,
                        d.default_features,
                        jmi == pkgs@[j as int].mi,
                        (jmi as int) < ms@.len(),
                        defs == ms@[jmi as int].defaults@,
                        q2 <= defs.len(),
                        rules@.len() >= withf.len(),
                        rules@.take(withf.len() as int) == withf,
                        edge_defaults(ms@, pkgs@, i as int, j as int, defs, q2 as int) == Ok::<
                            Seq<Rule>,
                            ResolutionError,
                        >(rules@.skip(withf.len() as int)),
                    decreases defs.len() - q2,
                {
                    let f = ms[jmi].defaults[q2];
                    let jm = &ms[jmi];
                    if declares_feature(jm, f) {
                        rules.push(
                            Rule {
                                prem_a: Some(Cond::Present(i)),
                                prem_b: Some(Cond::Present(j)),
                                conclusion: Cond::Feat(j, f),
                            },
                        );
                        assert(rules@.take(withf.len() as int) =~= withf);
                        assert(rules@.skip(withf.len() as int) =~= edge_defaults(
                            ms@,
                            pkgs@,
                            i as int,
                            j as int,
                            defs,
                            q2 as int,
                        )->Ok_0.push(rules@[rules@.len() - 1]));
                    } else {
                        proof {
                            lemma_edge_defaults_err(
                                ms@,
                                pkgs@,
                                i as int,
                                j as int,
                                defs,
                                q2 + 1,
                                defs.len() as int,
                            );
                        }
                        return Err(
                            ResolutionError::UnknownFeature { package: jm.name, feature: f },
                        );
                    }
                    q2 += 1;
                }
                proof {
                    let ed = rules@.skip(withf.len() as int);
                    let dr = decl_rules(ms@, pkgs@, i as int, *d, all);
                    assert(dr == Ok::<Seq<Rule>, ResolutionError>(presence + ef + ed));
                    assert((*rules)@ =~= withf + ed);
                    assert((*rules)@ =~= old(rules)@ + (presence + ef + ed));
                }
            } else {
                proof {
                    let dr = decl_rules(ms@, pkgs@, i as int, *d, all);
                    assert(dr == Ok::<Seq<Rule>, ResolutionError>(presence + ef));
                    assert((*rules)@ =~= old(rules)@ + (presence + ef));
                }
            }
            Ok(())
        },
    }
}

/// Appends the implication rules of one package's declared features.
fn push_pkg_feats(
    ms: &Vec<Manifest>,
    pkgs: &Vec<ResolvedPackage>,
    i: usize,
    rules: &mut Vec<Rule>,
) -> (r: Result<(), ResolutionError>)
    requires
        wf_pkgs(ms@, pkgs@),
        (i as int) < pkgs@.len(),
    ensures
        ({
            let fds = ms@[pkgs@[i as int].mi as int].features@;
            match r {
                Ok(_) => ({
                    &&& feats_rules(ms@, pkgs@, i as int, fds, fds.len() as int) is Ok
                    &&& (*final(rules))@ == old(rules)@ + feats_rules(
                        ms@,
                        pkgs@,
                        i as int,
                        fds,
                        fds.len() as int,
                    )->Ok_0
                }),
                Err(e) => feats_rules(ms@, pkgs@, i as int, fds, fds.len() as int) == Err::<
                    Seq<Rule>,
                    ResolutionError,
                >(e),
            }
        }),
{
    let mi = pkgs[i].mi;
    let ghost fds = ms@[mi as int].features@;
    assert(rules@.take(old(rules)@.len() as int) =~= old(rules)@);
    assert(rules@.skip(old(rules)@.len() as int) =~= Seq::<Rule>::empty());
    let mut p: usize = 0;
    while p < ms[mi].features.len()
        invariant
            wf_pkgs(ms@, pkgs@),
            (i as int) < pkgs@.len(),
            mi == pkgs@[i as int].mi,
            (mi as int) < ms@.len(),
            fds == ms@[mi as int].features@,
            p <= fds.len(),
            rules@.len() >= old(rules)@.len(),
            rules@.take(old(rules)@.len() as int) == old(rules)@,
            feats_rules(ms@, pkgs@, i as int, fds, p as int) == Ok::<Seq<Rule>, ResolutionError>(
                rules@.skip(old(rules)@.len() as int),
            ),
        decreases fds.len() - p,
    {
        let fname = ms[mi].features[p].name;
        let ghost toks = ms@[mi as int].features@[p as int].implies@;
        let ghost ft_in = rules@;
        assert(rules@.take(ft_in.len() as int) =~= ft_in);
        assert(rules@.skip(ft_in.len() as int) =~= Seq::<Rule>::empty());
        let mut q: usize = 0;
        while q < ms[mi].features[p].implies.len()
            invariant
                wf_pkgs(ms@, pkgs@),
                (i as int) < pkgs@.len(),
                mi == pkgs@[i as int].mi,
                (mi as int) < ms@.len(),
                fds == ms@[mi as int].features@,
                (p as int) < fds.len(),
                fname == fds[p as int].name,
                toks == fds[p as int].implies@,
                q <= toks.len(),
                ft_in.len() >= old(rules)@.len(),
                ft_in.take(old(rules)@.len() as int) == old(rules)@,
                feats_rules(ms@, pkgs@, i as int, fds, p as int) == Ok::<
                    Seq<Rule>,
                    ResolutionError,
                >(ft_in.skip(old(rules)@.len() as int)),
                rules@.len() >= ft_in.len(),
                rules@.take(ft_in.len() as int) == ft_in,
                feat_tokens(ms@, pkgs@, i as int, fname, toks, q as int) == Ok::<
                    Seq<Rule>,
                    ResolutionError,
                >(rules@.skip(ft_in.len() as int)),
            decreases toks.len() - q,
        {
            let t = ms[mi].features[p].implies[q];
            match push_token(ms, pkgs, i, Cond::Feat(i, fname), false, t, rules) {
                Ok(_) => {},
                Err(e) => {
                    proof {
                        lemma_feat_tokens_err(
                            ms@,
                            pkgs@,
                            i as int,
                            fname,
                            toks,
                            q + 1,
                            toks.len() as int,
                        );
                        lemma_feats_err(ms@, pkgs@, i as int, fds, p + 1, fds.len() as int);
                    }
                    return Err(e);
                },
            }
            assert(rules@.take(ft_in.len() as int) =~= ft_in);
            assert(rules@.take(old(rules)@.len() as int) =~= old(rules)@);
            assert(rules@.skip(ft_in.len() as int) =~= feat_tokens(
                ms@,
                pkgs@,
                i as int,
                fname,
                toks,
                q as int,
            )->Ok_0 + token_rules(ms@, pkgs@, i as int, Cond::Feat(i, fname), false, t)->Ok_0);
            q += 1;
        }
        proof {
            assert(rules@.take(old(rules)@.len() as int) =~= old(rules)@);
            assert(rules@.skip(old(rules)@.len() as int) =~= ft_in.skip(old(rules)@.len() as int)
                + rules@.skip(ft_in.len() as int));
        }
        p += 1;
    }
    assert((*rules)@ =~= old(rules)@ + rules@.skip(old(rules)@.len() as int));
    Ok(())
}

/// Appends the rules of the caller's explicit tokens.
fn push_phase_a(
    ms: &Vec<Manifest>,
    pkgs: &Vec<ResolvedPackage>,
    toks: &Vec<FeatureToken>,
    rules: &mut Vec<Rule>,
) -> (r: Result<(), ResolutionError>)
    requires
        wf_pkgs(ms@, pkgs@),
    ensures
        match r {
            Ok(_) => ({
                &&& a_rules(ms@, pkgs@, toks@, toks@.len() as int) is Ok
                &&& (*final(rules))@ == old(rules)@ + a_rules(
                    ms@,
                    pkgs@,
                    toks@,
                    toks@.len() as int,
                )->Ok_0
            }),
            Err(e) => a_rules(ms@, pkgs@, toks@, toks@.len() as int) == Err::<
                Seq<Rule>,
                ResolutionError,
            >(e),
        },
{
    assert(rules@.take(old(rules)@.len() as int) =~= old(rules)@);
    assert(rules@.skip(old(rules)@.len() as int) =~= Seq::<Rule>::empty());
    let mut q: usize = 0;
    while q < toks.len()
        invariant
            wf_pkgs(ms@, pkgs@),
            q <= toks@.len(),
            rules@.len() >= old(rules)@.len(),
            rules@.take(old(rules)@.len() as int) == old(rules)@,
            a_rules(ms@, pkgs@, toks@, q as int) == Ok::<Seq<Rule>, ResolutionError>(
                rules@.skip(old(rules)@.len() as int),
            ),
        decreases toks@.len() - q,
    {
        let t = toks[q];
        match push_token(ms, pkgs, 0, Cond::Present(0), true, t, rules) {
            Ok(_) => {},
            Err(e) => {
                proof {
                    lemma_a_err(ms@, pkgs@, toks@, q + 1, toks@.len() as int);
                }
                return Err(e);
            },
        }
        assert(rules@.take(old(rules)@.len() as int) =~= old(rules)@);
        assert(rules@.skip(old(rules)@.len() as int) =~= a_rules(
            ms@,
            pkgs@,
            toks@,
            q as int,
        )->Ok_0 + token_rules(ms@, pkgs@, 0, Cond::Present(0), true, t)->Ok_0);
        q += 1;
    }
    assert((*rules)@ =~= old(rules)@ + rules@.skip(old(rules)@.len() as int));
    Ok(())
}

/// Appends the root package's default-feature seeds.
fn push_phase_b(
    ms: &Vec<Manifest>,
    pkgs: &Vec<ResolvedPackage>,
    ndf: bool,
    rules: &mut Vec<Rule>,
) -> (r: Result<(), ResolutionError>)
    requires
        wf_pkgs(ms@, pkgs@),
    ensures
        match r {
            Ok(_) => ({
                &&& b_rules(ms@, pkgs@, ndf) is Ok
                &&& (*final(rules))@ == old(rules)@ + b_rules(ms@, pkgs@, ndf)->Ok_0
            }),
            Err(e) => b_rules(ms@, pkgs@, ndf) == Err::<Seq<Rule>, ResolutionError>(e),
        },
{
    if ndf {
        assert((*rules)@ =~= old(rules)@ + b_rules(ms@, pkgs@, ndf)->Ok_0);
        return Ok(());
    }
    let root_mi = pkgs[0].mi;
    let ghost defs = ms@[root_mi as int].defaults@;
    assert(rules@.take(old(rules)@.len() as int) =~= old(rules)@);
    assert(rules@.skip(old(rules)@.len() as int) =~= Seq::<Rule>::empty());
    let mut q: usize = 0;
    while q < ms[root_mi].defaults.len()
        invariant
            wf_pkgs(ms@, pkgs@),
            !ndf,
            root_mi == pkgs@[0].mi,
            (root_mi as int) < ms@.len(),
            defs == ms@[root_mi as int].defaults@,
            q <= defs.len(),
            rules@.len() >= old(rules)@.len(),
            rules@.take(old(rules)@.len() as int) == old(rules)@,
            b_defaults(ms@, pkgs@, defs, q as int) == Ok::<Seq<Rule>, ResolutionError>(
                rules@.skip(old(rules)@.len() as int),
            ),
        decreases defs.len() - q,
    {
        let f = ms[root_mi].defaults[q];
        let m = &ms[root_mi];
        if declares_feature(m, f) {
            rules.push(
                Rule { prem_a: Some(Cond::Present(0)), prem_b: None, conclusion: Cond::Feat(
                    0,
                    f,
                ) },
            );
            assert(rules@.take(old(rules)@.len() as int) =~= old(rules)@);
            assert(rules@.skip(old(rules)@.len() as int) =~= b_defaults(
                ms@,
                pkgs@,
                defs,
                q as int,
            )->Ok_0.push(rules@[rules@.len() - 1]));
        } else {
            proof {
                lemma_b_err(ms@, pkgs@, defs, q + 1, defs.len() as int);
            }
            return Err(ResolutionError::UnknownFeature { package: m.name, feature: f });
        }
        q += 1;
    }
    assert((*rules)@ =~= old(rules)@ + rules@.skip(old(rules)@.len() as int));
    Ok(())
}

/// Appends the edge rules of the whole graph.
fn push_phase_c(
    ms: &Vec<Manifest>,
    pkgs: &Vec<ResolvedPackage>,
    all: bool,
    rules: &mut Vec<Rule>,
) -> (r: Result<(), ResolutionError>)
    requires
        wf_pkgs(ms@, pkgs@),
    ensures
        match r {
            Ok(_) => ({
                &&& c_rules(ms@, pkgs@, all, pkgs@.len() as int) is Ok
                &&& (*final(rules))@ == old(rules)@ + c_rules(
                    ms@,
                    pkgs@,
                    all,
                    pkgs@.len() as int,
                )->Ok_0
            }),
            Err(e) => c_rules(ms@, pkgs@, all, pkgs@.len() as int) == Err::<
                Seq<Rule>,
                ResolutionError,
            >(e),
        },
{
    assert(rules@.take(old(rules)@.len() as int) =~= old(rules)@);
    assert(rules@.skip(old(rules)@.len() as int) =~= Seq::<Rule>::empty());
    let mut i: usize = 0;
    while i < pkgs.len()
        invariant
            wf_pkgs(ms@, pkgs@),
            i <= pkgs@.len(),
            rules@.len() >= old(rules)@.len(),
            rules@.take(old(rules)@.len() as int) == old(rules)@,
            c_rules(ms@, pkgs@, all, i as int) == Ok::<Seq<Rule>, ResolutionError>(
                rules@.skip(old(rules)@.len() as int),
            ),
        decreases pkgs@.len() - i,
    {
        let mi = pkgs[i].mi;
        let ghost deps = ms@[mi as int].deps@;
        let ghost rc_in = rules@;
        assert(rules@.take(rc_in.len() as int) =~= rc_in);
        assert(rules@.skip(rc_in.len() as int) =~= Seq::<Rule>::empty());
        let mut j: usize = 0;
        while j < ms[mi].deps.len()
            invariant
                wf_pkgs(ms@, pkgs@),
                (i as int) < pkgs@.len(),
                mi == pkgs@[i as int].mi,
                (mi as int) < ms@.len(),
                deps == ms@[mi as int].deps@,
                j <= deps.len(),
                rc_in.take(old(rules)@.len() as int) == old(rules)@,
                c_rules(ms@, pkgs@, all, i as int) == Ok::<Seq<Rule>, ResolutionError>(
                    rc_in.skip(old(rules)@.len() as int),
                ),
                rules@.len() >= rc_in.len(),
                rules@.take(rc_in.len() as int) == rc_in,
                decls_rules(ms@, pkgs@, i as int, deps, all, j as int) == Ok::<
                    Seq<Rule>,
                    ResolutionError,
                >(rules@.skip(rc_in.len() as int)),
            decreases deps.len() - j,
        {
            let d = &ms[mi].deps[j];
            if matches!(d.kind, DepKind::Normal) {
                let ghost rd_pre = rules@;
                match push_decl_rules(ms, pkgs, i, d, all, rules) {
                    Ok(_) => {},
                    Err(e) => {
                        proof {
                            lemma_decls_err(
                                ms@,
                                pkgs@,
                                i as int,
                                deps,
                                all,
                                j + 1,
                                deps.len() as int,
                            );
                            lemma_c_err(ms@, pkgs@, all, i + 1, pkgs@.len() as int);
                        }
                        return Err(e);
                    },
                }
                assert(rules@.take(rc_in.len() as int) =~= rc_in);
                assert(rules@.skip(rc_in.len() as int) =~= decls_rules(
                    ms@,
                    pkgs@,
                    i as int,
                    deps,
                    all,
                    j as int,
                )->Ok_0 + decl_rules(ms@, pkgs@, i as int, deps[j as int], all)->Ok_0);
            }
            j += 1;
        }
        proof {
            assert(rules@.take(old(rules)@.len() as int) =~= old(rules)@);
            assert(rules@.skip(old(rules)@.len() as int) =~= rc_in.skip(
                old(rules)@.len() as int,
            ) + rules@.skip(rc_in.len() as int));
        }
        i += 1;
    }
    assert((*rules)@ =~= old(rules)@ + rules@.skip(old(rules)@.len() as int));
    Ok(())
}

/// Appends the feature-implication rules of the whole graph.
fn push_phase_d(
    ms: &Vec<Manifest>,
    pkgs: &Vec<ResolvedPackage>,
    rules: &mut Vec<Rule>,
) -> (r: Result<(), ResolutionError>)
    requires
        wf_pkgs(ms@, pkgs@),
    ensures
        match r {
            Ok(_) => ({
                &&& d_rules(ms@, pkgs@, pkgs@.len() as int) is Ok
                &&& (*final(rules))@ == old(rules)@ + d_rules(
                    ms@,
                    pkgs@,
                    pkgs@.len() as int,
                )->Ok_0
            }),
            Err(e) => d_rules(ms@, pkgs@, pkgs@.len() as int) == Err::<
                Seq<Rule>,
                ResolutionError,
            >(e),
        },
{
    assert(rules@.take(old(rules)@.len() as int) =~= old(rules)@);
    assert(rules@.skip(old(rules)@.len() as int) =~= Seq::<Rule>::empty());
    let mut i: usize = 0;
    while i < pkgs.len()
        invariant
            wf_pkgs(ms@, pkgs@),
            i <= pkgs@.len(),
            rules@.len() >= old(rules)@.len(),
            rules@.take(old(rules)@.len() as int) == old(rules)@,
            d_rules(ms@, pkgs@, i as int) == Ok::<Seq<Rule>, ResolutionError>(
                rules@.skip(old(rules)@.len() as int),
            ),
        decreases pkgs@.len() - i,
    {
        let ghost rd_in = rules@;
        match push_pkg_feats(ms, pkgs, i, rules) {
            Ok(_) => {},
            Err(e) => {
                proof {
                    lemma_d_err(ms@, pkgs@, i + 1, pkgs@.len() as int);
                }
                return Err(e);
            },
        }
        proof {
            let fds = ms@[pkgs@[i as int].mi as int].features@;
            assert(rules@.skip(rd_in.len() as int) =~= feats_rules(
                ms@,
                pkgs@,
                i as int,
                fds,
                fds.len() as int,
            )->Ok_0);
            assert(rules@.take(old(rules)@.len() as int) =~= old(rules)@);
            assert(rules@.skip(old(rules)@.len() as int) =~= rd_in.skip(old(rules)@.len() as int)
                + rules@.skip(rd_in.len() as int));
            assert(d_rules(ms@, pkgs@, i + 1) == Ok::<Seq<Rule>, ResolutionError>(
                d_rules(ms@, pkgs@, i as int)->Ok_0 + feats_rules(
                    ms@,
                    pkgs@,
                    i as int,
                    fds,
                    fds.len() as int,
                )->Ok_0,
            ));
        }
        i += 1;
    }
    assert((*rules)@ =~= old(rules)@ + rules@.skip(old(rules)@.len() as int));
    Ok(())
}

/// Appends, for every package, one rule per declared feature: the full
/// feature universe under `--all-features`.
fn push_phase_e(ms: &Vec<Manifest>, pkgs: &Vec<ResolvedPackage>, rules: &mut Vec<Rule>)
    requires
        wf_pkgs(ms@, pkgs@),
    ensures
        (*final(rules))@ == old(rules)@ + e_rules(ms@, pkgs@, pkgs@.len() as int),
{
    assert(rules@.take(old(rules)@.len() as int) =~= old(rules)@);
    assert(rules@.skip(old(rules)@.len() as int) =~= Seq::<Rule>::empty());
    let mut i: usize = 0;
    while i < pkgs.len()
        invariant
            wf_pkgs(ms@, pkgs@),
            i <= pkgs@.len(),
            rules@.len() >= old(rules)@.len(),
            rules@.take(old(rules)@.len() as int) == old(rules)@,
            e_rules(ms@, pkgs@, i as int) == rules@.skip(old(rules)@.len() as int),
        decreases pkgs@.len() - i,
    {
        let mi = pkgs[i].mi;
        let ghost fds = ms@[mi as int].features@;
        let ghost re_in = rules@;
        assert(rules@.take(re_in.len() as int) =~= re_in);
        assert(rules@.skip(re_in.len() as int) =~= Seq::<Rule>::empty());
        let mut p: usize = 0;
        while p < ms[mi].features.len()
            invariant
                wf_pkgs(ms@, pkgs@),
                (i as int) < pkgs@.len(),
                mi == pkgs@[i as int].mi,
                (mi as int) < ms@.len(),
                fds == ms@[mi as int].features@,
                p <= fds.len(),
                re_in.take(old(rules)@.len() as int) == old(rules)@,
                e_rules(ms@, pkgs@, i as int) == re_in.skip(old(rules)@.len() as int),
                rules@.len() >= re_in.len(),
                rules@.take(re_in.len() as int) == re_in,
                e_pkg(fds, i as int, p as int) == rules@.skip(re_in.len() as int),
            decreases fds.len() - p,
        {
            rules.push(
                Rule {
                    prem_a: Some(Cond::Present(i)),
                    prem_b: None,
                    conclusion: Cond::Feat(i, ms[mi].features[p].name),
                },
            );
            assert(rules@.take(re_in.len() as int) =~= re_in);
            assert(rules@.skip(re_in.len() as int) =~= e_pkg(fds, i as int, p as int).push(
                rules@[rules@.len() - 1],
            ));
            p += 1;
        }
        proof {
            assert(rules@.take(old(rules)@.len() as int) =~= old(rules)@);
            assert(rules@.skip(old(rules)@.len() as int) =~= re_in.skip(old(rules)@.len() as int)
                + rules@.skip(re_in.len() as int));
        }
        i += 1;
    }
    assert((*rules)@ =~= old(rules)@ + rules@.skip(old(rules)@.len() as int));
}

/// Compiles the whole rule system of one request, validating every
/// referenced feature and dependency on the way.
pub fn compile_rules(
    ms: &Vec<Manifest>,
    pkgs: &Vec<ResolvedPackage>,
    cli: &CliFeatureSelection,
) -> (r: Result<Vec<Rule>, ResolutionError>)
    requires
        wf_pkgs(ms@, pkgs@),
    ensures
        ({
            let sc = spec_compile(
                ms@,
                pkgs@,
                cli.all_features,
                cli.no_default_features,
                cli.features@,
            );
            match r {
                Ok(rules) => sc == Ok::<Seq<Rule>, ResolutionError>(rules@),
                Err(e) => sc == Err::<Seq<Rule>, ResolutionError>(e),
            }
        }),
{
    let all = cli.all_features;
    let ndf = cli.no_default_features;
    let mut rules: Vec<Rule> = Vec::new();
    match push_phase_a(ms, pkgs, &cli.features, &mut rules) {
        Ok(_) => {},
        Err(e) => {
            return Err(e);
        },
    }
    let ghost ra = rules@;
    match push_phase_b(ms, pkgs, ndf, &mut rules) {
        Ok(_) => {},
        Err(e) => {
            return Err(e);
        },
    }
    let ghost rab = rules@;
    match push_phase_c(ms, pkgs, all, &mut rules) {
        Ok(_) => {},
        Err(e) => {
            return Err(e);
        },
    }
    let ghost rabc = rules@;
    match push_phase_d(ms, pkgs, &mut rules) {
        Ok(_) => {},
        Err(e) => {
            return Err(e);
        },
    }
    let ghost rabcd = rules@;
    if all {
        push_phase_e(ms, pkgs, &mut rules);
    }
    proof {
        let toks = cli.features@;
        let re: Seq<Rule> = if all {
            e_rules(ms@, pkgs@, pkgs@.len() as int)
        } else {
            Seq::<Rule>::empty()
        };
        assert(rules@ =~= a_rules(ms@, pkgs@, toks, toks.len() as int)->Ok_0 + b_rules(
            ms@,
            pkgs@,
            ndf,
        )->Ok_0 + c_rules(ms@, pkgs@, all, pkgs@.len() as int)->Ok_0 + d_rules(
            ms@,
            pkgs@,
            pkgs@.len() as int,
        )->Ok_0 + re);
    }
    Ok(rules)
}

} // verus!
