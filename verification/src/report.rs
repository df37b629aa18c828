//! The public entry point and the reporter: runs the whole pipeline —
//! discovery, version selection, rule compilation, activation — then
//! prunes packages that never became present and orders the listing by
//! name, version and origin, a total order that makes the output stable
//! across runs.

use vstd::prelude::*;
use crate::engine::{Cond, Rule, State, StateModel, m_holds, m_iter, apply_round, run_rounds};
use crate::graph::{bfs_rec, build_reach};
use crate::model::{
    CliFeatureSelection, DepKind, FeatureToken, Manifest, OracleEntry, PackageIdentity,
    ResolutionError, lemma_find_manifest_from, spec_find_manifest, find_manifest,
};
use crate::resolve::{
    GroupModel, ResolveIssue, ResolvedPackage, copy_u64s, mk_packages, resolve_versions,
    spec_groups, spec_root_package,
};
use crate::rules::{compile_rules, find_target, find_target_from, spec_compile, wf_pkgs};

verus! {

/// One resolution request: the root package's name, the materialized
/// manifest-lookup and available-versions collaborators, the caller's
/// feature selection, and the platform policy on whether incompatible
/// compatibility classes of one name may coexist.
#[derive(Clone, Debug)]
pub struct ResolutionRequest {
    pub root: u64,
    pub manifests: Vec<Manifest>,
    pub oracle: Vec<OracleEntry>,
    pub cli: CliFeatureSelection,
    pub multi_major: bool,
}

/// One resolved package of the report: its identity, its activated
/// features as an ascending sequence of names, and the identities it
/// depends on.
#[derive(Clone, Debug)]
pub struct ResolvedEntry {
    pub identity: PackageIdentity,
    pub features: Vec<u64>,
    pub deps: Vec<PackageIdentity>,
}

#[verifier::ext_equal]
pub struct EntryModel {
    pub identity: PackageIdentity,
    pub features: Seq<u64>,
    pub deps: Seq<PackageIdentity>,
}

impl View for ResolvedEntry {
    type V = EntryModel;

    open spec fn view(&self) -> EntryModel {
        EntryModel { identity: self.identity, features: self.features@, deps: self.deps@ }
    }
}

/// The resolved graph and feature set, root excluded, in report order.
#[derive(Clone, Debug)]
pub struct ResolutionReport {
    pub packages: Vec<ResolvedEntry>,
}

/// The initial activation state: only the root is present.
pub open spec fn init_model(n: int) -> StateModel {
    StateModel {
        present: Seq::new(n as nat, |i: int| i == 0),
        feats: Seq::new(n as nat, |i: int| Seq::<u64>::empty()),
    }
}

/// The identities a present package depends on.
pub open spec fn entry_deps(
    ms: Seq<Manifest>,
    pkgs: Seq<ResolvedPackage>,
    st: StateModel,
    i: int,
    j: int,
) -> Seq<PackageIdentity>
    decreases j,
{
    let deps = ms[pkgs[i].mi as int].deps@;
    if j <= 0 || j > deps.len() {
        Seq::empty()
    } else {
        let pre = entry_deps(ms, pkgs, st, i, j - 1);
        let d = deps[j - 1];
        if d.kind != DepKind::Normal {
            pre
        } else {
            match find_target_from(pkgs, d, 0) {
                None => pre,
                Some(t) => if m_holds(st, Cond::Present(t as usize)) {
                    pre.push(pkgs[t].identity)
                } else {
                    pre
                },
            }
        }
    }
}

/// The unsorted listing: every present package but the root, in graph
/// order.
pub open spec fn entries_upto(
    ms: Seq<Manifest>,
    pkgs: Seq<ResolvedPackage>,
    st: StateModel,
    i: int,
) -> Seq<EntryModel>
    decreases i,
{
    if i <= 1 || i > pkgs.len() {
        Seq::empty()
    } else {
        let pre = entries_upto(ms, pkgs, st, i - 1);
        if m_holds(st, Cond::Present((i - 1) as usize)) {
            pre.push(
                EntryModel {
                    identity: pkgs[i - 1].identity,
                    features: sort_u64(st.feats[i - 1]),
                    deps: entry_deps(
                        ms,
                        pkgs,
                        st,
                        i - 1,
                        ms[pkgs[i - 1].mi as int].deps@.len() as int,
                    ),
                },
            )
        } else {
            pre
        }
    }
}

/// The report's total order: name, then version, then origin rank.
/// Names are interned tokens, so the order over names is the order of
/// the tokens: the interning layer owes it to assign tokens in the
/// name order it wants the listing to follow (ascending string order
/// for the conventional output).
pub open spec fn key_le(a: EntryModel, b: EntryModel) -> bool {
    if a.identity.name != b.identity.name {
        a.identity.name < b.identity.name
    } else if a.identity.version != b.identity.version {
        a.identity.version.spec_le(b.identity.version)
    } else {
        a.identity.origin.spec_rank() <= b.identity.origin.spec_rank()
    }
}

/// Stable insertion into an ordered listing.
pub open spec fn insert_sorted(s: Seq<EntryModel>, e: EntryModel) -> Seq<EntryModel>
    decreases s.len(),
{
    if s.len() == 0 {
        seq![e]
    } else if key_le(e, s[0]) {
        seq![e] + s
    } else {
        seq![s[0]] + insert_sorted(s.drop_first(), e)
    }
}

pub open spec fn sort_upto(s: Seq<EntryModel>, i: int) -> Seq<EntryModel>
    decreases i,
{
    if i <= 0 || i > s.len() {
        Seq::empty()
    } else {
        insert_sorted(sort_upto(s, i - 1), s[i - 1])
    }
}

pub open spec fn sort_entries(s: Seq<EntryModel>) -> Seq<EntryModel> {
    sort_upto(s, s.len() as int)
}

/// Where the first slot whose element is not below `e` sits, insertion
/// lands there.
proof fn lemma_insert_at(s: Seq<EntryModel>, e: EntryModel, k: int)
    requires
        0 <= k <= s.len(),
        forall|j: int| 0 <= j < k ==> !key_le(e, #[trigger] s[j]),
        k < s.len() ==> key_le(e, s[k]),
    ensures
        insert_sorted(s, e) =~= s.take(k) + seq![e] + s.skip(k),
    decreases k,
{
    if s.len() == 0 {
        assert(insert_sorted(s, e) =~= s.take(k) + seq![e] + s.skip(k));
    } else if k == 0 {
        assert(insert_sorted(s, e) =~= seq![e] + s);
        assert(s.take(0) + seq![e] + s.skip(0) =~= seq![e] + s);
    } else {
        assert(!key_le(e, s[0]));
        lemma_insert_at(s.drop_first(), e, k - 1);
        assert(insert_sorted(s, e) =~= seq![s[0]] + (s.drop_first().take(k - 1) + seq![e]
            + s.drop_first().skip(k - 1)));
        assert(seq![s[0]] + s.drop_first().take(k - 1) =~= s.take(k));
        assert(s.drop_first().skip(k - 1) =~= s.skip(k));
    }
}

/// Sorted insertion of one feature name.
pub open spec fn insert_u64(s: Seq<u64>, x: u64) -> Seq<u64>
    decreases s.len(),
{
    if s.len() == 0 {
        seq![x]
    } else if x <= s[0] {
        seq![x] + s
    } else {
        seq![s[0]] + insert_u64(s.drop_first(), x)
    }
}

pub open spec fn sort_u64_upto(s: Seq<u64>, i: int) -> Seq<u64>
    decreases i,
{
    if i <= 0 || i > s.len() {
        Seq::empty()
    } else {
        insert_u64(sort_u64_upto(s, i - 1), s[i - 1])
    }
}

/// A feature set rendered for the report: ascending feature names.
pub open spec fn sort_u64(s: Seq<u64>) -> Seq<u64> {
    sort_u64_upto(s, s.len() as int)
}

pub open spec fn u64_sorted(s: Seq<u64>) -> bool {
    forall|p: int, q: int| 0 <= p < q < s.len() ==> s[p] <= s[q]
}

proof fn lemma_insert_u64_sorted(s: Seq<u64>, x: u64)
    requires
        u64_sorted(s),
    ensures
        u64_sorted(insert_u64(s, x)),
        insert_u64(s, x).len() == s.len() + 1,
        forall|y: u64| #![trigger insert_u64(s, x).contains(y)]
            insert_u64(s, x).contains(y) <==> s.contains(y) || y == x,
    decreases s.len(),
{
    let s2 = insert_u64(s, x);
    if s.len() == 0 {
        assert forall|y: u64| s2.contains(y) implies s.contains(y) || y == x by {
            let k = choose|k: int| 0 <= k < s2.len() && s2[k] == y;
        }
        assert(s2[0] == x);
    } else if x <= s[0] {
        assert forall|y: u64| s2.contains(y) implies s.contains(y) || y == x by {
            let k = choose|k: int| 0 <= k < s2.len() && s2[k] == y;
            if k > 0 {
                assert(s[k - 1] == y);
            }
        }
        assert forall|y: u64| s.contains(y) || y == x implies s2.contains(y) by {
            if s.contains(y) {
                let k = choose|k: int| 0 <= k < s.len() && s[k] == y;
                assert(s2[k + 1] == y);
            } else {
                assert(s2[0] == y);
            }
        }
    } else {
        let rest = s.drop_first();
        assert(u64_sorted(rest));
        lemma_insert_u64_sorted(rest, x);
        let r2 = insert_u64(rest, x);
        assert forall|p: int, q: int| 0 <= p < q < s2.len() implies s2[p] <= s2[q] by {
            if p == 0 {
                assert(s2[q] == r2[q - 1]);
                if r2.contains(r2[q - 1]) {
                }
                // s[0] is below x and below every element of rest
                assert(r2.contains(r2[q - 1]));
                assert(rest.contains(r2[q - 1]) || r2[q - 1] == x);
                if rest.contains(r2[q - 1]) {
                    let w = choose|w: int| 0 <= w < rest.len() && rest[w] == r2[q - 1];
                    assert(s[0] <= s[w + 1]);
                }
            } else {
                assert(s2[p] == r2[p - 1] && s2[q] == r2[q - 1]);
            }
        }
        assert forall|y: u64| s2.contains(y) implies s.contains(y) || y == x by {
            let k = choose|k: int| 0 <= k < s2.len() && s2[k] == y;
            if k > 0 {
                assert(r2[k - 1] == y);
                assert(r2.contains(y));
                if rest.contains(y) {
                    let w = choose|w: int| 0 <= w < rest.len() && rest[w] == y;
                    assert(s[w + 1] == y);
                }
            } else {
                assert(s[0] == y);
            }
        }
        assert forall|y: u64| s.contains(y) || y == x implies s2.contains(y) by {
            if s.contains(y) {
                let k = choose|k: int| 0 <= k < s.len() && s[k] == y;
                if k == 0 {
                    assert(s2[0] == y);
                } else {
                    assert(rest[k - 1] == y);
                    assert(rest.contains(y));
                    assert(r2.contains(y));
                    let w = choose|w: int| 0 <= w < r2.len() && r2[w] == y;
                    assert(s2[w + 1] == y);
                }
            } else {
                assert(rest.contains(x) || x == x);
                assert(r2.contains(x));
                let w = choose|w: int| 0 <= w < r2.len() && r2[w] == x;
                assert(s2[w + 1] == y);
            }
        }
    }
}

/// The reported feature sequence is ascending and holds exactly the
/// activated names.
pub proof fn lemma_sort_u64_sorted(s: Seq<u64>, i: int)
    requires
        0 <= i <= s.len(),
    ensures
        u64_sorted(sort_u64_upto(s, i)),
        sort_u64_upto(s, i).len() == i,
        forall|y: u64| #![trigger sort_u64_upto(s, i).contains(y)]
            sort_u64_upto(s, i).contains(y) <==> exists|k: int| 0 <= k < i && s[k] == y,
    decreases i,
{
    if i > 0 {
        lemma_sort_u64_sorted(s, i - 1);
        lemma_insert_u64_sorted(sort_u64_upto(s, i - 1), s[i - 1]);
        assert forall|y: u64| sort_u64_upto(s, i).contains(y) implies exists|k: int|
            0 <= k < i && s[k] == y by {
            if sort_u64_upto(s, i - 1).contains(y) {
            } else {
                assert(s[i - 1] == y);
            }
        }
        assert forall|y: u64| (exists|k: int| 0 <= k < i && s[k] == y) implies sort_u64_upto(
            s,
            i,
        ).contains(y) by {
            let k = choose|k: int| 0 <= k < i && s[k] == y;
            if k < i - 1 {
                assert(exists|w: int| 0 <= w < i - 1 && s[w] == y);
                assert(sort_u64_upto(s, i - 1).contains(y));
            }
            assert(insert_u64(sort_u64_upto(s, i - 1), s[i - 1]).contains(y));
        }
    }
}

fn find_u64_pos(out: &Vec<u64>, x: u64) -> (pos: usize)
    ensures
        pos <= out@.len(),
        forall|j: int| 0 <= j < pos ==> !(x <= #[trigger] out@[j]),
        (pos as int) < out@.len() ==> x <= out@[pos as int],
{
    let mut pos: usize = 0;
    while pos < out.len()
        invariant
            pos <= out@.len(),
            forall|j: int| 0 <= j < pos ==> !(x <= #[trigger] out@[j]),
        decreases out@.len() - pos,
    {
        if x <= out[pos] {
            return pos;
        }
        pos += 1;
    }
    pos
}

proof fn lemma_insert_u64_at(s: Seq<u64>, x: u64, k: int)
    requires
        0 <= k <= s.len(),
        forall|j: int| 0 <= j < k ==> !(x <= #[trigger] s[j]),
        k < s.len() ==> x <= s[k],
    ensures
        insert_u64(s, x) =~= s.take(k) + seq![x] + s.skip(k),
    decreases k,
{
    if s.len() == 0 {
    } else if k == 0 {
        assert(s.take(0) + seq![x] + s.skip(0) =~= seq![x] + s);
    } else {
        lemma_insert_u64_at(s.drop_first(), x, k - 1);
        assert(insert_u64(s, x) =~= seq![s[0]] + (s.drop_first().take(k - 1) + seq![x]
            + s.drop_first().skip(k - 1)));
        assert(seq![s[0]] + s.drop_first().take(k - 1) =~= s.take(k));
        assert(s.drop_first().skip(k - 1) =~= s.skip(k));
    }
}

/// Orders one feature list ascending for the report.
fn sort_features(v: &Vec<u64>) -> (r: Vec<u64>)
    ensures
        r@ == sort_u64(v@),
{
    let mut out: Vec<u64> = Vec::new();
    assert(out@ =~= sort_u64_upto(v@, 0));
    let mut k: usize = 0;
    while k < v.len()
        invariant
            k <= v@.len(),
            out@ == sort_u64_upto(v@, k as int),
        decreases v@.len() - k,
    {
        let x = v[k];
        let ghost out_pre = out@;
        let pos = find_u64_pos(&out, x);
        out.insert(pos, x);
        proof {
            lemma_insert_u64_at(out_pre, x, pos as int);
            assert(out@ =~= out_pre.take(pos as int) + seq![x] + out_pre.skip(pos as int));
            assert(out@ =~= insert_u64(out_pre, x));
            assert(out@ =~= sort_u64_upto(v@, k + 1));
        }
        k += 1;
    }
    out
}

/// Whether every resolved normal-kind dependency of slot `i` is already
/// marked, over the first `j` declarations.
pub open spec fn deps_marked(
    ms: Seq<Manifest>,
    pkgs: Seq<ResolvedPackage>,
    marks: Seq<bool>,
    i: int,
    j: int,
) -> bool
    decreases j,
{
    let deps = ms[pkgs[i].mi as int].deps@;
    if j <= 0 || j > deps.len() {
        true
    } else {
        deps_marked(ms, pkgs, marks, i, j - 1) && {
            let d = deps[j - 1];
            if d.kind != DepKind::Normal {
                true
            } else {
                match find_target_from(pkgs, d, 0) {
                    None => true,
                    Some(t) => marks[t],
                }
            }
        }
    }
}

/// One peeling pass: in slot order, a package is marked once every
/// dependency it resolves to is marked.
pub open spec fn mark_upto(
    ms: Seq<Manifest>,
    pkgs: Seq<ResolvedPackage>,
    marks: Seq<bool>,
    i: int,
) -> Seq<bool>
    decreases i,
{
    if i <= 0 || i > pkgs.len() {
        marks
    } else {
        let pre = mark_upto(ms, pkgs, marks, i - 1);
        let deps = ms[pkgs[i - 1].mi as int].deps@;
        if !pre[i - 1] && deps_marked(ms, pkgs, pre, i - 1, deps.len() as int) {
            pre.update(i - 1, true)
        } else {
            pre
        }
    }
}

pub open spec fn mark_rounds(
    ms: Seq<Manifest>,
    pkgs: Seq<ResolvedPackage>,
    marks: Seq<bool>,
    n: nat,
) -> Seq<bool>
    decreases n,
{
    if n == 0 {
        marks
    } else {
        mark_upto(ms, pkgs, mark_rounds(ms, pkgs, marks, (n - 1) as nat), pkgs.len() as int)
    }
}

/// The peeling fixpoint: as many passes as there are packages; a slot
/// left unmarked then sits on a cycle of resolved normal-kind edges.
pub open spec fn spec_marks(ms: Seq<Manifest>, pkgs: Seq<ResolvedPackage>) -> Seq<bool> {
    mark_rounds(ms, pkgs, Seq::new(pkgs.len() as nat, |q: int| false), pkgs.len() as nat)
}

pub open spec fn first_unmarked(marks: Seq<bool>, k: int) -> Option<int>
    decreases marks.len() - k,
{
    if k < 0 || k >= marks.len() {
        None
    } else if !marks[k] {
        Some(k)
    } else {
        first_unmarked(marks, k + 1)
    }
}

/// Rejects a resolved graph whose normal-kind edges close a cycle: the
/// graph must be a directed acyclic graph rooted at the workspace's
/// package.
fn check_acyclic(ms: &Vec<Manifest>, pkgs: &Vec<ResolvedPackage>) -> (r: Result<
    (),
    ResolutionError,
>)
    requires
        wf_pkgs(ms@, pkgs@),
    ensures
        ({
            let marks = spec_marks(ms@, pkgs@);
            match r {
                Ok(_) => first_unmarked(marks, 0) is None,
                Err(e) => first_unmarked(marks, 0) matches Some(idx) && e == (
                ResolutionError::CyclicDependencies { name: pkgs@[idx].identity.name }),
            }
        }),
{
    let n = pkgs.len();
    let mut marks: Vec<bool> = Vec::new();
    let mut q: usize = 0;
    while q < n
        invariant
            q <= n,
            n == pkgs@.len(),
            marks@.len() == q,
            forall|w: int| 0 <= w < q ==> !(#[trigger] marks@[w]),
        decreases n - q,
    {
        marks.push(false);
        q += 1;
    }
    let ghost m0 = Seq::new(pkgs@.len() as nat, |w: int| false);
    assert(marks@ =~= m0);
    let mut round: usize = 0;
    while round < n
        invariant
            wf_pkgs(ms@, pkgs@),
            n == pkgs@.len(),
            round <= n,
            m0 == Seq::new(pkgs@.len() as nat, |w: int| false),
            marks@.len() == n,
            marks@ == mark_rounds(ms@, pkgs@, m0, round as nat),
        decreases n - round,
    {
        let ghost pass_in = marks@;
        let mut i: usize = 0;
        assert(marks@ == mark_upto(ms@, pkgs@, pass_in, 0));
        while i < n
            invariant
                wf_pkgs(ms@, pkgs@),
                n == pkgs@.len(),
                i <= n,
                marks@.len() == n,
                marks@ == mark_upto(ms@, pkgs@, pass_in, i as int),
            decreases n - i,
        {
            if !marks[i] {
                let mi = pkgs[i].mi;
                let ghost deps = ms@[mi as int].deps@;
                let mut all_ok = true;
                let mut j: usize = 0;
                while j < ms[mi].deps.len()
                    invariant
                        wf_pkgs(ms@, pkgs@),
                        n == pkgs@.len(),
                        (i as int) < pkgs@.len(),
                        mi == pkgs@[i as int].mi,
                        (mi as int) < ms@.len(),
                        deps == ms@[mi as int].deps@,
                        j <= deps.len(),
                        marks@.len() == n,
                        all_ok == deps_marked(ms@, pkgs@, marks@, i as int, j as int),
                    decreases deps.len() - j,
                {
                    let d = &ms[mi].deps[j];
                    if matches!(d.kind, DepKind::Normal) {
                        match find_target(pkgs, d) {
                            Some(t) => {
                                if !marks[t] {
                                    all_ok = false;
                                }
                            },
                            None => {},
                        }
                    }
                    assert(all_ok == deps_marked(ms@, pkgs@, marks@, i as int, j + 1));
                    j += 1;
                }
                if all_ok {
                    marks[i] = true;
                }
            }
            assert(marks@ =~= mark_upto(ms@, pkgs@, pass_in, i + 1));
            i += 1;
        }
        assert(marks@ == mark_rounds(ms@, pkgs@, m0, (round + 1) as nat));
        round += 1;
    }
    let mut k: usize = 0;
    while k < n
        invariant
            k <= n,
            n == pkgs@.len(),
            marks@.len() == n,
            marks@ == spec_marks(ms@, pkgs@),
            first_unmarked(marks@, 0) == first_unmarked(marks@, k as int),
        decreases n - k,
    {
        if !marks[k] {
            return Err(ResolutionError::CyclicDependencies { name: pkgs[k].identity.name });
        }
        k += 1;
    }
    Ok(())
}

/// A spec-level account of a failed resolution.
pub enum ResolutionIssue {
    Plain(ResolutionError),
    Unsat(GroupModel),
}

/// The whole pipeline as one mathematical function of the request.
pub open spec fn spec_resolution(
    root: u64,
    ms: Seq<Manifest>,
    os: Seq<OracleEntry>,
    all: bool,
    ndf: bool,
    toks: Seq<FeatureToken>,
    multi: bool,
) -> Result<Seq<EntryModel>, ResolutionIssue> {
    match spec_find_manifest(ms, root) {
        None => Err(ResolutionIssue::Plain(ResolutionError::ManifestUnavailable { name: root })),
        Some(ri) => match bfs_rec(ms, seq![ri as usize], 0) {
            Err(n) => Err(ResolutionIssue::Plain(ResolutionError::ManifestUnavailable { name: n })),
            Ok(reach) => {
                let gs = spec_groups(ms, reach, multi);
                match mk_packages(ms, gs, os, gs.len() as int) {
                    Err(ResolveIssue::NoManifest(n)) => Err(
                        ResolutionIssue::Plain(ResolutionError::ManifestUnavailable { name: n }),
                    ),
                    Err(ResolveIssue::Unsat(idx)) => Err(ResolutionIssue::Unsat(gs[idx])),
                    Ok(tail) => {
                        let pkgs = seq![spec_root_package(ms, reach[0])] + tail;
                        if first_unmarked(spec_marks(ms, pkgs), 0) is Some {
                            Err(
                                ResolutionIssue::Plain(
                                    ResolutionError::CyclicDependencies {
                                        name: pkgs[first_unmarked(
                                            spec_marks(ms, pkgs),
                                            0,
                                        )->0].identity.name,
                                    },
                                ),
                            )
                        } else {
                            match spec_compile(ms, pkgs, all, ndf, toks) {
                            Err(e) => Err(ResolutionIssue::Plain(e)),
                            Ok(rules) => {
                                let st = m_iter(
                                    init_model(pkgs.len() as int),
                                    rules,
                                    (rules.len() + 1) as nat,
                                );
                                Ok(sort_entries(entries_upto(ms, pkgs, st, pkgs.len() as int)))
                            },
                            }
                        }
                    },
                }
            },
        },
    }
}

pub open spec fn entry_views(es: Seq<ResolvedEntry>) -> Seq<EntryModel> {
    es.map_values(|e: ResolvedEntry| e@)
}

/// What `resolve` promises of the spec-level outcome.
pub open spec fn resolution_matches(
    req: ResolutionRequest,
    r: Result<ResolutionReport, ResolutionError>,
) -> bool {
    let sr = spec_resolution(
        req.root,
        req.manifests@,
        req.oracle@,
        req.cli.all_features,
        req.cli.no_default_features,
        req.cli.features@,
        req.multi_major,
    );
    match r {
        Ok(report) => sr == Ok::<Seq<EntryModel>, ResolutionIssue>(entry_views(report.packages@)),
        Err(e) => match sr {
            Ok(_) => false,
            Err(ResolutionIssue::Plain(e2)) => e == e2,
            Err(ResolutionIssue::Unsat(g)) => e matches ResolutionError::UnsatisfiableConstraints {
                name,
                requirers,
                ranges,
            } && name == g.name && requirers@ == g.requirers && ranges@ == g.reqs,
        },
    }
}

/// Every node a successful selection produces carries an in-range
/// manifest index.
proof fn lemma_mk_bounds(
    ms: Seq<Manifest>,
    gs: Seq<GroupModel>,
    os: Seq<OracleEntry>,
    k: int,
)
    requires
        0 <= k <= gs.len(),
        mk_packages(ms, gs, os, k) is Ok,
    ensures
        forall|q: int|
            0 <= q < mk_packages(ms, gs, os, k)->Ok_0.len() ==> (#[trigger] mk_packages(
                ms,
                gs,
                os,
                k,
            )->Ok_0[q].mi as int) < ms.len(),
        mk_packages(ms, gs, os, k)->Ok_0.len() == k,
    decreases k,
{
    if k > 0 {
        lemma_mk_bounds(ms, gs, os, k - 1);
        lemma_find_manifest_from(ms, gs[k - 1].name, 0);
    }
}

fn key_le_exec(a: &ResolvedEntry, b: &ResolvedEntry) -> (r: bool)
    ensures
        r == key_le(a@, b@),
{
    if a.identity.name != b.identity.name {
        a.identity.name < b.identity.name
    } else if !(a.identity.version == b.identity.version) {
        a.identity.version.le(&b.identity.version)
    } else {
        a.identity.origin.rank() <= b.identity.origin.rank()
    }
}

fn find_pos(out: &Vec<ResolvedEntry>, e: &ResolvedEntry) -> (pos: usize)
    ensures
        pos <= out@.len(),
        forall|j: int| 0 <= j < pos ==> !key_le(e@, #[trigger] entry_views(out@)[j]),
        (pos as int) < out@.len() ==> key_le(e@, entry_views(out@)[pos as int]),
{
    let mut pos: usize = 0;
    while pos < out.len()
        invariant
            pos <= out@.len(),
            forall|j: int| 0 <= j < pos ==> !key_le(e@, #[trigger] entry_views(out@)[j]),
        decreases out@.len() - pos,
    {
        if key_le_exec(e, &out[pos]) {
            return pos;
        }
        pos += 1;
    }
    pos
}

/// Orders the listing: insertion sort against the report's total order.
fn sort_entries_exec(input: Vec<ResolvedEntry>) -> (r: Vec<ResolvedEntry>)
    ensures
        entry_views(r@) == sort_entries(entry_views(input@)),
{
    let ghost iv = entry_views(input@);
    let mut rest = input;
    let mut out: Vec<ResolvedEntry> = Vec::new();
    let ghost mut k: int = 0;
    assert(entry_views(out@) =~= sort_upto(iv, 0));
    assert(entry_views(rest@) =~= iv.skip(0));
    while rest.len() > 0
        invariant
            0 <= k <= iv.len(),
            entry_views(rest@) == iv.skip(k),
            rest@.len() == iv.len() - k,
            entry_views(out@) == sort_upto(iv, k),
        decreases rest@.len(),
    {
        let ghost out_pre = out@;
        let ghost rest_pre = rest@;
        let e = rest.remove(0);
        proof {
            assert(e@ == entry_views(rest_pre)[0]);
            assert(e@ == iv[k]);
            assert(rest@ == rest_pre.remove(0));
            assert forall|j: int| 0 <= j < rest@.len() implies entry_views(rest@)[j] == iv.skip(
                k + 1,
            )[j] by {
                assert(rest@[j] == rest_pre[j + 1]);
                assert(entry_views(rest_pre)[j + 1] == rest_pre[j + 1]@);
                assert(entry_views(rest_pre)[j + 1] == iv.skip(k)[j + 1]);
            }
            assert(entry_views(rest@) =~= iv.skip(k + 1));
        }
        let pos = find_pos(&out, &e);
        out.insert(pos, e);
        proof {
            lemma_insert_at(entry_views(out_pre), e@, pos as int);
            assert(entry_views(out@) =~= entry_views(out_pre).take(pos as int) + seq![e@]
                + entry_views(out_pre).skip(pos as int));
            assert(entry_views(out@) =~= insert_sorted(sort_upto(iv, k), iv[k]));
            assert(entry_views(out@) =~= sort_upto(iv, k + 1));
            k = k + 1;
        }
    }
    assert(iv.skip(k).len() == 0);
    assert(k == iv.len());
    out
}

/// The listing of every present package but the root, in graph order.
fn build_entries(
    ms: &Vec<Manifest>,
    pkgs: &Vec<ResolvedPackage>,
    st: &State,
) -> (r: Vec<ResolvedEntry>)
    requires
        wf_pkgs(ms@, pkgs@),
        st@.present.len() == pkgs@.len(),
        st@.feats.len() == pkgs@.len(),
    ensures
        entry_views(r@) == entries_upto(ms@, pkgs@, st@, pkgs@.len() as int),
{
    let mut out: Vec<ResolvedEntry> = Vec::new();
    let mut i: usize = 1;
    assert(entry_views(out@) =~= entries_upto(ms@, pkgs@, st@, 1));
    while i < pkgs.len()
        invariant
            wf_pkgs(ms@, pkgs@),
            st@.present.len() == pkgs@.len(),
            st@.feats.len() == pkgs@.len(),
            1 <= i,
            (i as int) <= pkgs@.len() || i == 1,
            entry_views(out@) == entries_upto(ms@, pkgs@, st@, i as int),
        decreases pkgs@.len() - i,
    {
        if st.present[i] {
            assert(m_holds(st@, Cond::Present(i)));
            let feats = sort_features(&st.feats[i]);
            let mi = pkgs[i].mi;
            let ghost deps_v = ms@[mi as int].deps@;
            let mut deps: Vec<PackageIdentity> = Vec::new();
            assert(deps@ =~= entry_deps(ms@, pkgs@, st@, i as int, 0));
            let mut j: usize = 0;
            while j < ms[mi].deps.len()
                invariant
                    wf_pkgs(ms@, pkgs@),
                    st@.present.len() == pkgs@.len(),
                    (i as int) < pkgs@.len(),
                    mi == pkgs@[i as int].mi,
                    (mi as int) < ms@.len(),
                    deps_v == ms@[mi as int].deps@,
                    j <= deps_v.len(),
                    deps@ == entry_deps(ms@, pkgs@, st@, i as int, j as int),
                decreases deps_v.len() - j,
            {
                let d = &ms[mi].deps[j];
                if matches!(d.kind, DepKind::Normal) {
                    match find_target(pkgs, d) {
                        Some(t) => {
                            if st.present[t] {
                                assert(m_holds(st@, Cond::Present(t)));
                                deps.push(pkgs[t].identity);
                            } else {
                                assert(!m_holds(st@, Cond::Present(t)));
                            }
                        },
                        None => {},
                    }
                }
                assert(deps@ =~= entry_deps(ms@, pkgs@, st@, i as int, j + 1));
                j += 1;
            }
            out.push(ResolvedEntry { identity: pkgs[i].identity, features: feats, deps });
            assert(entry_views(out@) =~~= entries_upto(ms@, pkgs@, st@, i + 1));
        } else {
            assert(!m_holds(st@, Cond::Present(i)));
            assert(entry_views(out@) =~= entries_upto(ms@, pkgs@, st@, i + 1));
        }
        i += 1;
    }
    out
}

impl ResolutionReport {
    /// Count mode: how many packages the resolved set holds, the root
    /// not counted.
    pub fn count(&self) -> (n: usize)
        ensures
            n == self.packages@.len(),
    {
        self.packages.len()
    }
}

/// Resolves one request: discovers the manifests reachable from the
/// root, selects one version per identity, rejects a cyclic graph,
/// activates features to their fixpoint, and reports the present
/// packages in a stable total order — by name token, version, origin
/// (see `key_le` for what name order means under interning).  The
/// result is a mathematical function of the request alone.
pub fn resolve(req: &ResolutionRequest) -> (r: Result<ResolutionReport, ResolutionError>)
    ensures
        resolution_matches(*req, r),
{
    let ms = &req.manifests;
    let root_idx = match find_manifest(ms, req.root) {
        None => {
            return Err(ResolutionError::ManifestUnavailable { name: req.root });
        },
        Some(ri) => ri,
    };
    proof {
        lemma_find_manifest_from(ms@, req.root, 0);
    }
    let reach = match build_reach(ms, root_idx) {
        Err(n) => {
            return Err(ResolutionError::ManifestUnavailable { name: n });
        },
        Ok(reach) => reach,
    };
    let pkgs = match resolve_versions(ms, &reach, &req.oracle, req.multi_major) {
        Err(e) => {
            return Err(e);
        },
        Ok(ps) => ps,
    };
    let ghost gs = spec_groups(ms@, reach@, req.multi_major);
    proof {
        lemma_mk_bounds(ms@, gs, req.oracle@, gs.len() as int);
        assert(pkgs@.skip(1) == mk_packages(ms@, gs, req.oracle@, gs.len() as int)->Ok_0);
        assert forall|q: int| 0 <= q < pkgs@.len() implies (#[trigger] pkgs@[q].mi as int)
            < ms@.len() by {
            if q >= 1 {
                assert(pkgs@[q] == pkgs@.skip(1)[q - 1]);
            }
        }
        assert(wf_pkgs(ms@, pkgs@));
        assert(pkgs@ =~= seq![spec_root_package(ms@, reach@[0])] + mk_packages(
            ms@,
            gs,
            req.oracle@,
            gs.len() as int,
        )->Ok_0);
    }
    match check_acyclic(ms, &pkgs) {
        Ok(_) => {},
        Err(e) => {
            return Err(e);
        },
    }
    let rules = match compile_rules(ms, &pkgs, &req.cli) {
        Err(e) => {
            return Err(e);
        },
        Ok(rs) => rs,
    };
    let mut st = State::init(pkgs.len(), 0);
    proof {
        assert(st@.present =~= init_model(pkgs@.len() as int).present);
        assert forall|q: int| 0 <= q < pkgs@.len() implies st@.feats[q] =~= init_model(
            pkgs@.len() as int,
        ).feats[q] by {}
        assert(st@.feats =~~= init_model(pkgs@.len() as int).feats);
        assert(st@ =~~= init_model(pkgs@.len() as int));
    }
    let nrounds = rules.len();
    run_rounds(&rules, &mut st, nrounds);
    apply_round(&rules, &mut st);
    proof {
        assert(st@ == m_iter(init_model(pkgs@.len() as int), rules@, (rules@.len() + 1) as nat));
        crate::engine::lemma_iter_le(
            init_model(pkgs@.len() as int),
            rules@,
            0,
            (rules@.len() + 1) as nat,
        );
        assert(st@.present.len() == pkgs@.len());
        assert(st@.feats.len() == pkgs@.len());
    }
    let entries = build_entries(ms, &pkgs, &st);
    let sorted = sort_entries_exec(entries);
    Ok(ResolutionReport { packages: sorted })
}

} // verus!
