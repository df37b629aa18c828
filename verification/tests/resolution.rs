use real_deps::model::{
    CliFeatureSelection, DepKind, DependencyDeclaration, FeatureDecl, FeatureToken, Manifest,
    OracleEntry, Origin, ResolutionError,
};
use real_deps::report::{ResolutionRequest, resolve};
use real_deps::semver::{Version, VersionReq};

// interned names used by the scenarios
const ROOT: u64 = 0;
const BAR: u64 = 1;
const BAZ: u64 = 2;
const FOO: u64 = 3;
const PKG: u64 = 4;
const REQ_A: u64 = 5;
const REQ_B: u64 = 6;
const OPT: u64 = 7;

// interned feature names
const F_X: u64 = 100;
const F_D: u64 = 101;
const F_E: u64 = 102;
const F_W: u64 = 103;
const F_G: u64 = 104;
const F_S: u64 = 105;
const F_1: u64 = 106;
const F_2: u64 = 107;

fn v(major: u64, minor: u64, patch: u64) -> Version {
    Version { major, minor, patch }
}

fn caret(major: u64, minor: u64, patch: u64) -> VersionReq {
    VersionReq::Compatible(v(major, minor, patch))
}

fn dep(name: u64, req: VersionReq) -> DependencyDeclaration {
    DependencyDeclaration {
        name,
        origin: Origin::Registry,
        req,
        optional: false,
        default_features: true,
        features: Vec::new(),
        kind: DepKind::Normal,
    }
}

fn manifest(name: u64, version: Version) -> Manifest {
    Manifest {
        name,
        version,
        origin: Origin::Registry,
        features: Vec::new(),
        defaults: Vec::new(),
        deps: Vec::new(),
    }
}

fn no_flags() -> CliFeatureSelection {
    CliFeatureSelection { all_features: false, no_default_features: false, features: Vec::new() }
}

fn oracle_entry(name: u64, versions: Vec<Version>) -> OracleEntry {
    OracleEntry { name, versions }
}

/// The scenario: root depends on foo ^1.0 (features ["x"], defaults
/// off) and bar ^1.0; foo declares default feature d and feature x
/// activating optional dependency baz.
fn scenario_request() -> ResolutionRequest {
    let mut root = manifest(ROOT, v(0, 1, 0));
    root.origin = Origin::Workspace;
    let mut foo_dep = dep(FOO, caret(1, 0, 0));
    foo_dep.default_features = false;
    foo_dep.features = vec![F_X];
    root.deps = vec![foo_dep, dep(BAR, caret(1, 0, 0))];

    let mut foo = manifest(FOO, v(1, 0, 0));
    foo.defaults = vec![F_D];
    foo.features = vec![
        FeatureDecl { name: F_D, implies: Vec::new() },
        FeatureDecl { name: F_X, implies: vec![FeatureToken::OptionalDep(BAZ)] },
    ];
    let mut baz_dep = dep(BAZ, caret(0, 5, 0));
    baz_dep.optional = true;
    foo.deps = vec![baz_dep];

    let bar = manifest(BAR, v(1, 0, 0));
    let baz = manifest(BAZ, v(0, 5, 0));

    ResolutionRequest {
        root: ROOT,
        manifests: vec![root, foo, bar, baz],
        oracle: vec![
            oracle_entry(FOO, vec![v(1, 0, 0), v(1, 2, 0)]),
            oracle_entry(BAR, vec![v(1, 0, 0)]),
            oracle_entry(BAZ, vec![v(0, 5, 0)]),
        ],
        cli: no_flags(),
        multi_major: true,
    }
}

#[test]
fn scenario_resolves_expected_versions_and_features() {
    let report = resolve(&scenario_request()).unwrap();
    assert_eq!(report.packages.len(), 3);
    // ordered by name: bar < baz < foo
    assert_eq!(report.packages[0].identity.name, BAR);
    assert_eq!(report.packages[0].identity.version, v(1, 0, 0));
    assert_eq!(report.packages[0].features, Vec::<u64>::new());
    assert_eq!(report.packages[1].identity.name, BAZ);
    assert_eq!(report.packages[1].identity.version, v(0, 5, 0));
    assert_eq!(report.packages[1].features, Vec::<u64>::new());
    assert_eq!(report.packages[2].identity.name, FOO);
    assert_eq!(report.packages[2].identity.version, v(1, 2, 0));
    // default d excluded (defaults off on the requirer), x activated
    assert_eq!(report.packages[2].features, vec![F_X]);
}

#[test]
fn scenario_count_is_three() {
    let report = resolve(&scenario_request()).unwrap();
    assert_eq!(report.count(), 3);
}

#[test]
fn scenario_resolved_graph_edges() {
    let report = resolve(&scenario_request()).unwrap();
    // foo depends on baz (present through feature x)
    let foo_entry = &report.packages[2];
    assert_eq!(foo_entry.deps.len(), 1);
    assert_eq!(foo_entry.deps[0].name, BAZ);
    assert_eq!(foo_entry.deps[0].version, v(0, 5, 0));
}

#[test]
fn determinism_same_request_same_report() {
    let r1 = resolve(&scenario_request()).unwrap();
    let r2 = resolve(&scenario_request()).unwrap();
    assert_eq!(r1.packages.len(), r2.packages.len());
    for (a, b) in r1.packages.iter().zip(r2.packages.iter()) {
        assert_eq!(a.identity, b.identity);
        assert_eq!(a.features, b.features);
        assert_eq!(a.deps, b.deps);
    }
}

#[test]
fn highest_matching_version_wins_regardless_of_oracle_order() {
    let mut req = scenario_request();
    req.oracle[0] = oracle_entry(FOO, vec![v(1, 2, 0), v(1, 0, 0), v(1, 1, 5)]);
    let report = resolve(&req).unwrap();
    assert_eq!(report.packages[2].identity.version, v(1, 2, 0));
}

fn conflict_request(multi_major: bool) -> ResolutionRequest {
    let mut root = manifest(ROOT, v(0, 1, 0));
    root.deps = vec![dep(REQ_A, caret(1, 0, 0)), dep(REQ_B, caret(1, 0, 0))];
    let mut a = manifest(REQ_A, v(1, 0, 0));
    a.deps = vec![dep(PKG, caret(1, 0, 0))];
    let mut b = manifest(REQ_B, v(1, 0, 0));
    b.deps = vec![dep(PKG, caret(2, 0, 0))];
    let pkg = manifest(PKG, v(1, 0, 0));
    ResolutionRequest {
        root: ROOT,
        manifests: vec![root, a, b, pkg],
        oracle: vec![
            oracle_entry(REQ_A, vec![v(1, 0, 0)]),
            oracle_entry(REQ_B, vec![v(1, 0, 0)]),
            oracle_entry(PKG, vec![v(1, 0, 0), v(2, 0, 0)]),
        ],
        cli: no_flags(),
        multi_major,
    }
}

#[test]
fn conflict_names_both_requirers() {
    // the platform policy forbids coexistence: ^1.0 and ^2.0 clash
    match resolve(&conflict_request(false)) {
        Err(ResolutionError::UnsatisfiableConstraints { name, requirers, ranges }) => {
            assert_eq!(name, PKG);
            assert_eq!(requirers, vec![REQ_A, REQ_B]);
            assert_eq!(ranges, vec![caret(1, 0, 0), caret(2, 0, 0)]);
        },
        other => panic!("expected an unsatisfiable-constraints error, got {:?}", other),
    }
}

#[test]
fn incompatible_majors_coexist_when_permitted() {
    let report = resolve(&conflict_request(true)).unwrap();
    // pkg 1.0.0, pkg 2.0.0, a, b — ordered by name then version
    assert_eq!(report.count(), 4);
    assert_eq!(report.packages[0].identity.name, PKG);
    assert_eq!(report.packages[0].identity.version, v(1, 0, 0));
    assert_eq!(report.packages[1].identity.name, PKG);
    assert_eq!(report.packages[1].identity.version, v(2, 0, 0));
    assert_eq!(report.packages[2].identity.name, REQ_A);
    assert_eq!(report.packages[3].identity.name, REQ_B);
}

fn defaults_request() -> ResolutionRequest {
    // root -> foo with defaults on; foo's default d implies e
    let mut root = manifest(ROOT, v(0, 1, 0));
    root.deps = vec![dep(FOO, caret(1, 0, 0))];
    let mut foo = manifest(FOO, v(1, 0, 0));
    foo.defaults = vec![F_D];
    foo.features = vec![
        FeatureDecl { name: F_D, implies: vec![FeatureToken::Plain(F_E)] },
        FeatureDecl { name: F_E, implies: Vec::new() },
    ];
    ResolutionRequest {
        root: ROOT,
        manifests: vec![root, foo],
        oracle: vec![oracle_entry(FOO, vec![v(1, 0, 0)])],
        cli: no_flags(),
        multi_major: true,
    }
}

#[test]
fn default_features_form_their_closure() {
    let report = resolve(&defaults_request()).unwrap();
    assert_eq!(report.packages.len(), 1);
    // d seeds, d implies e: exactly the declared default closure
    assert_eq!(report.packages[0].features, vec![F_D, F_E]);
}

#[test]
fn no_default_features_suppresses_root_seeds() {
    // root's own default d would activate optional dependency opt
    let mut root = manifest(ROOT, v(0, 1, 0));
    root.defaults = vec![F_D];
    root.features = vec![FeatureDecl { name: F_D, implies: vec![FeatureToken::OptionalDep(OPT)] }];
    let mut opt_dep = dep(OPT, caret(1, 0, 0));
    opt_dep.optional = true;
    root.deps = vec![opt_dep];
    let opt = manifest(OPT, v(1, 0, 0));
    let mut req = ResolutionRequest {
        root: ROOT,
        manifests: vec![root, opt],
        oracle: vec![oracle_entry(OPT, vec![v(1, 0, 0)])],
        cli: no_flags(),
        multi_major: true,
    };
    let with_defaults = resolve(&req).unwrap();
    assert_eq!(with_defaults.count(), 1);
    req.cli.no_default_features = true;
    let without = resolve(&req).unwrap();
    assert_eq!(without.count(), 0);
}

fn all_features_request() -> ResolutionRequest {
    let mut root = manifest(ROOT, v(0, 1, 0));
    root.deps = vec![dep(FOO, caret(1, 0, 0))];
    let mut foo = manifest(FOO, v(1, 0, 0));
    foo.features = vec![
        FeatureDecl { name: F_1, implies: Vec::new() },
        FeatureDecl { name: F_2, implies: Vec::new() },
    ];
    let mut opt_dep = dep(OPT, caret(1, 0, 0));
    opt_dep.optional = true;
    foo.deps = vec![opt_dep];
    let opt = manifest(OPT, v(1, 0, 0));
    ResolutionRequest {
        root: ROOT,
        manifests: vec![root, foo, opt],
        oracle: vec![
            oracle_entry(FOO, vec![v(1, 0, 0)]),
            oracle_entry(OPT, vec![v(1, 0, 0)]),
        ],
        cli: no_flags(),
        multi_major: true,
    }
}

#[test]
fn all_features_activates_every_declared_feature() {
    let mut req = all_features_request();
    let plain = resolve(&req).unwrap();
    assert_eq!(plain.count(), 1);
    assert_eq!(plain.packages[0].features, Vec::<u64>::new());
    req.cli.all_features = true;
    let full = resolve(&req).unwrap();
    // the optional dependency is forced on too
    assert_eq!(full.count(), 2);
    let foo_entry = full.packages.iter().find(|p| p.identity.name == FOO).unwrap();
    // the report renders features as a sorted sequence
    assert_eq!(foo_entry.features, vec![F_1, F_2]);
}

#[test]
fn all_features_makes_no_default_features_a_no_op() {
    let mut req = all_features_request();
    req.cli.all_features = true;
    let a = resolve(&req).unwrap();
    req.cli.no_default_features = true;
    let b = resolve(&req).unwrap();
    assert_eq!(a.count(), b.count());
    for (x, y) in a.packages.iter().zip(b.packages.iter()) {
        assert_eq!(x.identity, y.identity);
        assert_eq!(x.features, y.features);
    }
}

fn weak_request(strong_too: bool) -> ResolutionRequest {
    // root feature w weakly activates g on optional dependency opt;
    // feature s strongly activates opt
    let mut root = manifest(ROOT, v(0, 1, 0));
    root.features = vec![
        FeatureDecl { name: F_W, implies: vec![FeatureToken::WeakDependency(OPT, F_G)] },
        FeatureDecl { name: F_S, implies: vec![FeatureToken::OptionalDep(OPT)] },
    ];
    let mut opt_dep = dep(OPT, caret(1, 0, 0));
    opt_dep.optional = true;
    root.deps = vec![opt_dep];
    let mut opt = manifest(OPT, v(1, 0, 0));
    opt.features = vec![FeatureDecl { name: F_G, implies: Vec::new() }];
    let mut features = vec![FeatureToken::Plain(F_W)];
    if strong_too {
        features.push(FeatureToken::Plain(F_S));
    }
    ResolutionRequest {
        root: ROOT,
        manifests: vec![root, opt],
        oracle: vec![oracle_entry(OPT, vec![v(1, 0, 0)])],
        cli: CliFeatureSelection { all_features: false, no_default_features: true, features },
        multi_major: true,
    }
}

#[test]
fn weak_activation_does_not_force_presence() {
    let report = resolve(&weak_request(false)).unwrap();
    assert_eq!(report.count(), 0);
}

#[test]
fn weak_activation_applies_once_present_through_a_strong_path() {
    let report = resolve(&weak_request(true)).unwrap();
    assert_eq!(report.count(), 1);
    assert_eq!(report.packages[0].identity.name, OPT);
    assert_eq!(report.packages[0].features, vec![F_G]);
}

#[test]
fn unknown_cli_feature_is_reported() {
    let mut req = scenario_request();
    req.cli.features = vec![FeatureToken::Plain(F_G)];
    match resolve(&req) {
        Err(ResolutionError::UnknownFeature { package, feature }) => {
            assert_eq!(package, ROOT);
            assert_eq!(feature, F_G);
        },
        other => panic!("expected an unknown-feature error, got {:?}", other),
    }
}

#[test]
fn unknown_cross_package_feature_is_reported() {
    let mut req = scenario_request();
    // foo declares no feature named g
    req.cli.features = vec![FeatureToken::Dependency(FOO, F_G)];
    match resolve(&req) {
        Err(ResolutionError::UnknownFeature { package, feature }) => {
            assert_eq!(package, FOO);
            assert_eq!(feature, F_G);
        },
        other => panic!("expected an unknown-feature error, got {:?}", other),
    }
}

#[test]
fn selection_naming_a_missing_package_is_invalid() {
    let mut req = scenario_request();
    req.cli.features = vec![FeatureToken::Dependency(OPT, F_G)];
    match resolve(&req) {
        Err(ResolutionError::InvalidSelection { package }) => {
            assert_eq!(package, OPT);
        },
        other => panic!("expected an invalid-selection error, got {:?}", other),
    }
}

#[test]
fn missing_manifest_is_reported() {
    let mut req = scenario_request();
    req.manifests.remove(3);  // drop baz's manifest
    match resolve(&req) {
        Err(ResolutionError::ManifestUnavailable { name }) => {
            assert_eq!(name, BAZ);
        },
        other => panic!("expected a missing-manifest error, got {:?}", other),
    }
}

#[test]
fn empty_intersection_with_no_offered_version_is_unsatisfiable() {
    let mut req = scenario_request();
    req.oracle[0] = oracle_entry(FOO, vec![v(2, 0, 0)]);
    match resolve(&req) {
        Err(ResolutionError::UnsatisfiableConstraints { name, requirers, .. }) => {
            assert_eq!(name, FOO);
            assert_eq!(requirers, vec![ROOT]);
        },
        other => panic!("expected an unsatisfiable-constraints error, got {:?}", other),
    }
}

#[test]
fn root_without_dependencies_reports_nothing() {
    let req = ResolutionRequest {
        root: ROOT,
        manifests: vec![manifest(ROOT, v(0, 1, 0))],
        oracle: Vec::new(),
        cli: no_flags(),
        multi_major: true,
    };
    let report = resolve(&req).unwrap();
    assert_eq!(report.count(), 0);
}

#[test]
fn caret_requirements_respect_compatibility_classes() {
    let req = caret(1, 2, 3);
    assert!(req.matches(&v(1, 2, 3)));
    assert!(req.matches(&v(1, 9, 0)));
    assert!(!req.matches(&v(1, 2, 2)));
    assert!(!req.matches(&v(2, 0, 0)));
    let zero = caret(0, 5, 0);
    assert!(zero.matches(&v(0, 5, 7)));
    assert!(!zero.matches(&v(0, 6, 0)));
    let exact = VersionReq::Exact(v(1, 2, 3));
    assert!(exact.matches(&v(1, 2, 3)));
    assert!(!exact.matches(&v(1, 2, 4)));
}

#[test]
fn dependency_defaults_come_from_the_union_of_requirers() {
    // two requirers of foo: one wants its defaults, one does not —
    // the union applies, so the default feature is on
    let mut root = manifest(ROOT, v(0, 1, 0));
    let mut no_def = dep(FOO, caret(1, 0, 0));
    no_def.default_features = false;
    root.deps = vec![no_def, dep(REQ_A, caret(1, 0, 0))];
    let mut a = manifest(REQ_A, v(1, 0, 0));
    a.deps = vec![dep(FOO, caret(1, 0, 0))];
    let mut foo = manifest(FOO, v(1, 0, 0));
    foo.defaults = vec![F_D];
    foo.features = vec![FeatureDecl { name: F_D, implies: Vec::new() }];
    let req = ResolutionRequest {
        root: ROOT,
        manifests: vec![root, a, foo],
        oracle: vec![
            oracle_entry(FOO, vec![v(1, 0, 0)]),
            oracle_entry(REQ_A, vec![v(1, 0, 0)]),
        ],
        cli: no_flags(),
        multi_major: true,
    };
    let report = resolve(&req).unwrap();
    let foo_entry = report.packages.iter().find(|p| p.identity.name == FOO).unwrap();
    assert_eq!(foo_entry.features, vec![F_D]);
}

#[test]
fn dev_and_build_declarations_are_out_of_scope() {
    // only normal-kind declarations belong in a runtime dependency report
    let mut root = manifest(ROOT, v(0, 1, 0));
    let mut dev = dep(FOO, caret(1, 0, 0));
    dev.kind = DepKind::Dev;
    let mut build = dep(BAR, caret(1, 0, 0));
    build.kind = DepKind::Build;
    root.deps = vec![dev, build, dep(BAZ, caret(0, 5, 0))];
    let req = ResolutionRequest {
        root: ROOT,
        // the manifests of the dev and build targets are never fetched
        manifests: vec![root, manifest(BAZ, v(0, 5, 0))],
        oracle: vec![oracle_entry(BAZ, vec![v(0, 5, 0)])],
        cli: no_flags(),
        multi_major: true,
    };
    let report = resolve(&req).unwrap();
    assert_eq!(report.count(), 1);
    assert_eq!(report.packages[0].identity.name, BAZ);
}

#[test]
fn exact_requirements_conflict_within_one_class() {
    let mut root = manifest(ROOT, v(0, 1, 0));
    root.deps = vec![dep(REQ_A, caret(1, 0, 0)), dep(REQ_B, caret(1, 0, 0))];
    let mut a = manifest(REQ_A, v(1, 0, 0));
    a.deps = vec![dep(PKG, VersionReq::Exact(v(1, 2, 0)))];
    let mut b = manifest(REQ_B, v(1, 0, 0));
    b.deps = vec![dep(PKG, VersionReq::Exact(v(1, 3, 0)))];
    let pkg = manifest(PKG, v(1, 2, 0));
    let req = ResolutionRequest {
        root: ROOT,
        manifests: vec![root, a, b, pkg],
        oracle: vec![
            oracle_entry(REQ_A, vec![v(1, 0, 0)]),
            oracle_entry(REQ_B, vec![v(1, 0, 0)]),
            oracle_entry(PKG, vec![v(1, 2, 0), v(1, 3, 0)]),
        ],
        cli: no_flags(),
        // exact pins of one compatibility class never coexist
        multi_major: true,
    };
    match resolve(&req) {
        Err(ResolutionError::UnsatisfiableConstraints { name, requirers, .. }) => {
            assert_eq!(name, PKG);
            assert_eq!(requirers, vec![REQ_A, REQ_B]);
        },
        other => panic!("expected an unsatisfiable-constraints error, got {:?}", other),
    }
}

#[test]
fn distinct_origins_resolve_to_distinct_identities() {
    let mut root = manifest(ROOT, v(0, 1, 0));
    let mut local = dep(PKG, caret(1, 0, 0));
    local.origin = Origin::LocalPath;
    root.deps = vec![dep(PKG, caret(1, 0, 0)), local];
    let mut pkg = manifest(PKG, v(1, 0, 0));
    pkg.origin = Origin::Registry;
    let req = ResolutionRequest {
        root: ROOT,
        manifests: vec![root, pkg],
        oracle: vec![oracle_entry(PKG, vec![v(1, 0, 0)])],
        cli: no_flags(),
        multi_major: true,
    };
    let report = resolve(&req).unwrap();
    assert_eq!(report.count(), 2);
    assert_eq!(report.packages[0].identity.origin, Origin::LocalPath);
    assert_eq!(report.packages[1].identity.origin, Origin::Registry);
}

#[test]
fn a_true_cycle_is_a_resolution_error() {
    // a and b require each other: the resolved graph would not be a DAG
    let mut root = manifest(ROOT, v(0, 1, 0));
    root.deps = vec![dep(REQ_A, caret(1, 0, 0))];
    let mut a = manifest(REQ_A, v(1, 0, 0));
    a.deps = vec![dep(REQ_B, caret(1, 0, 0))];
    let mut b = manifest(REQ_B, v(1, 0, 0));
    b.deps = vec![dep(REQ_A, caret(1, 0, 0))];
    let req = ResolutionRequest {
        root: ROOT,
        manifests: vec![root, a, b],
        oracle: vec![
            oracle_entry(REQ_A, vec![v(1, 0, 0)]),
            oracle_entry(REQ_B, vec![v(1, 0, 0)]),
        ],
        cli: no_flags(),
        multi_major: true,
    };
    match resolve(&req) {
        // the root is the first package whose chain leads into the cycle
        Err(ResolutionError::CyclicDependencies { name }) => {
            assert_eq!(name, ROOT);
        },
        other => panic!("expected a cyclic-dependencies error, got {:?}", other),
    }
}

#[test]
fn a_chain_back_to_the_root_name_is_a_cycle() {
    // root -> a -> (root's own name): the root must never be resolved
    // as its own dependency
    let mut root = manifest(ROOT, v(1, 0, 0));
    root.origin = Origin::Registry;
    root.deps = vec![dep(REQ_A, caret(1, 0, 0))];
    let mut a = manifest(REQ_A, v(1, 0, 0));
    a.deps = vec![dep(ROOT, caret(1, 0, 0))];
    let req = ResolutionRequest {
        root: ROOT,
        manifests: vec![root, a],
        oracle: vec![
            oracle_entry(REQ_A, vec![v(1, 0, 0)]),
            oracle_entry(ROOT, vec![v(1, 0, 0)]),
        ],
        cli: no_flags(),
        multi_major: true,
    };
    match resolve(&req) {
        Err(ResolutionError::CyclicDependencies { .. }) => {},
        other => panic!("expected a cyclic-dependencies error, got {:?}", other),
    }
}

#[test]
fn a_diamond_is_not_a_cycle() {
    // root -> a, b; a -> c; b -> c: shared dependency, no cycle
    let mut root = manifest(ROOT, v(0, 1, 0));
    root.deps = vec![dep(REQ_A, caret(1, 0, 0)), dep(REQ_B, caret(1, 0, 0))];
    let mut a = manifest(REQ_A, v(1, 0, 0));
    a.deps = vec![dep(PKG, caret(1, 0, 0))];
    let mut b = manifest(REQ_B, v(1, 0, 0));
    b.deps = vec![dep(PKG, caret(1, 0, 0))];
    let pkg = manifest(PKG, v(1, 0, 0));
    let req = ResolutionRequest {
        root: ROOT,
        manifests: vec![root, a, b, pkg],
        oracle: vec![
            oracle_entry(REQ_A, vec![v(1, 0, 0)]),
            oracle_entry(REQ_B, vec![v(1, 0, 0)]),
            oracle_entry(PKG, vec![v(1, 0, 0)]),
        ],
        cli: no_flags(),
        multi_major: true,
    };
    let report = resolve(&req).unwrap();
    assert_eq!(report.count(), 3);
}
