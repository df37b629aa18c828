//! The manifest model: package identities, dependency declarations,
//! feature wiring and the caller's feature selection.
//!
//! Package names and feature names are interned tokens (`u64`); the
//! surrounding command-line layer owns the string table.

use vstd::prelude::*;
use crate::semver::{Version, VersionReq};

verus! {

/// Where a package's source lives.
#[derive(Clone, Copy, Debug, PartialEq, Eq, Structural, Hash)]
pub enum Origin {
    Workspace,
    LocalPath,
    Registry,
    VersionControl,
}

impl Origin {
    /// A total rank over origins, used only to give the reporter a total
    /// order between identities that tie on name and version.
    pub open spec fn spec_rank(self) -> u64 {
        match self {
            Origin::Workspace => 0,
            Origin::LocalPath => 1,
            Origin::Registry => 2,
            Origin::VersionControl => 3,
        }
    }

    pub fn rank(&self) -> (r: u64)
        ensures
            r == self.spec_rank(),
    {
        match self {
            Origin::Workspace => 0,
            Origin::LocalPath => 1,
            Origin::Registry => 2,
            Origin::VersionControl => 3,
        }
    }
}

/// Uniqueness key of one node of the resolved graph.
#[derive(Clone, Copy, Debug, PartialEq, Eq, Structural, Hash)]
pub struct PackageIdentity {
    pub name: u64,
    pub version: Version,
    pub origin: Origin,
}

/// Applicability of a dependency declaration.
#[derive(Clone, Copy, Debug, PartialEq, Eq, Structural, Hash)]
pub enum DepKind {
    Normal,
    Build,
    Dev,
}

/// One entry of a feature's implication list, or one caller-requested
/// feature token.
#[derive(Clone, Copy, Debug, PartialEq, Eq, Structural, Hash)]
pub enum FeatureToken {
    /// A feature of the package itself.
    Plain(u64),
    /// `dep/feature`: makes the dependency present and activates the
    /// feature on it.
    Dependency(u64, u64),
    /// `dep?/feature`: activates the feature on the dependency only while
    /// the dependency is present through some other, non-weak path.
    WeakDependency(u64, u64),
    /// Makes an optional dependency present without asking a feature of it.
    OptionalDep(u64),
}

/// What one requirer declares about one dependency.
#[derive(Clone, Debug)]
pub struct DependencyDeclaration {
    pub name: u64,
    pub origin: Origin,
    pub req: VersionReq,
    pub optional: bool,
    /// Whether the requirer wants the dependency's default feature set.
    pub default_features: bool,
    /// Requested sub-features of the dependency.
    pub features: Vec<u64>,
    pub kind: DepKind,
}

/// A feature a package declares, with the tokens it implies.
#[derive(Clone, Debug)]
pub struct FeatureDecl {
    pub name: u64,
    pub implies: Vec<FeatureToken>,
}

/// The declarative description of one package.
#[derive(Clone, Debug)]
pub struct Manifest {
    pub name: u64,
    pub version: Version,
    pub origin: Origin,
    pub features: Vec<FeatureDecl>,
    /// Names of the features active by default; each must be declared.
    pub defaults: Vec<u64>,
    pub deps: Vec<DependencyDeclaration>,
}

/// The caller's feature selection.
#[derive(Clone, Debug)]
pub struct CliFeatureSelection {
    pub all_features: bool,
    pub no_default_features: bool,
    /// Explicit feature tokens, evaluated against the root package.
    pub features: Vec<FeatureToken>,
}

/// One entry of the available-versions oracle.
#[derive(Clone, Debug)]
pub struct OracleEntry {
    pub name: u64,
    pub versions: Vec<Version>,
}

/// A terminal result of one resolution call.
#[derive(Clone, Debug)]
pub enum ResolutionError {
    /// A referenced package's manifest cannot be located.
    ManifestUnavailable { name: u64 },
    /// No available version satisfies every requirement contributed
    /// against the package; lists every contributing requirer.
    UnsatisfiableConstraints { name: u64, requirers: Vec<u64>, ranges: Vec<VersionReq> },
    /// A requested feature token is absent from its target package.
    UnknownFeature { package: u64, feature: u64 },
    /// The caller's selection names a dependency the root does not have.
    InvalidSelection { package: u64 },
    /// The resolved normal-kind edges close a true cycle, so the graph
    /// is not acyclic; names the first package, in graph order, whose
    /// dependency chain cannot be ordered because it leads into the
    /// cycle.
    CyclicDependencies { name: u64 },
}

/// First index of the manifest with the given name, scanning from `i`.
pub open spec fn find_manifest_from(ms: Seq<Manifest>, name: u64, i: int) -> Option<int>
    decreases ms.len() - i,
{
    if i < 0 || i >= ms.len() {
        None
    } else if ms[i].name == name {
        Some(i)
    } else {
        find_manifest_from(ms, name, i + 1)
    }
}

pub open spec fn spec_find_manifest(ms: Seq<Manifest>, name: u64) -> Option<int> {
    find_manifest_from(ms, name, 0)
}

pub proof fn lemma_find_manifest_from(ms: Seq<Manifest>, name: u64, i: int)
    requires
        0 <= i <= ms.len(),
    ensures
        match find_manifest_from(ms, name, i) {
            Some(k) => i <= k < ms.len() && ms[k].name == name && forall|j: int|
                i <= j < k ==> ms[j].name != name,
            None => forall|j: int| i <= j < ms.len() ==> ms[j].name != name,
        },
    decreases ms.len() - i,
{
    if i < ms.len() && ms[i].name != name {
        lemma_find_manifest_from(ms, name, i + 1);
    }
}

pub fn find_manifest(ms: &Vec<Manifest>, name: u64) -> (r: Option<usize>)
    ensures
        match r {
            Some(k) => spec_find_manifest(ms@, name) == Some(k as int),
            None => spec_find_manifest(ms@, name) is None,
        },
{
    let mut k: usize = 0;
    while k < ms.len()
        invariant
            k <= ms@.len(),
            find_manifest_from(ms@, name, 0) == find_manifest_from(ms@, name, k as int),
        decreases ms@.len() - k,
    {
        if ms[k].name == name {
            return Some(k);
        }
        k += 1;
    }
    None
}

/// Whether a manifest declares the feature name.
pub open spec fn spec_declares_feature(m: Manifest, f: u64) -> bool {
    exists|k: int| 0 <= k < m.features@.len() && m.features@[k].name == f
}

pub fn declares_feature(m: &Manifest, f: u64) -> (r: bool)
    ensures
        r == spec_declares_feature(*m, f),
{
    let mut k: usize = 0;
    while k < m.features.len()
        invariant
            0 <= k <= m.features@.len(),
            forall|j: int| 0 <= j < k ==> m.features@[j].name != f,
        decreases m.features@.len() - k,
    {
        if m.features[k].name == f {
            return true;
        }
        k += 1;
    }
    false
}

} // verus!
