use cargo_license::Catalog;
use cargo_license::CatalogError;
use cargo_license::DepDecl;
use cargo_license::DepKind;
use cargo_license::Dependency;
use cargo_license::FeatureDecl;
use cargo_license::PackageNode;
use cargo_license::get_dependencies;
use cargo_license::resolve_features;
use cargo_license::sort_deps;
use cargo_license::dedup_deps;

const REG: &str = "registry+https://crates.example/index";

fn dep(name: &str, req: &str, kind: DepKind, optional: bool, features: &[&str]) -> DepDecl {
    DepDecl {
        name: name.to_string(),
        req: req.to_string(),
        source: REG.to_string(),
        kind,
        optional,
        uses_default_features: true,
        features: features.iter().map(|s| s.to_string()).collect(),
    }
}

fn pkg(
    name: &str,
    version: &str,
    features: &[(&str, &[&str])],
    dependencies: Vec<DepDecl>,
) -> PackageNode {
    PackageNode {
        name: name.to_string(),
        version: version.to_string(),
        source: REG.to_string(),
        features: features
            .iter()
            .map(|(n, imp)| FeatureDecl {
                name: n.to_string(),
                implies: imp.iter().map(|s| s.to_string()).collect(),
            })
            .collect(),
        dependencies,
    }
}

fn strings(v: &[&str]) -> Vec<String> {
    v.iter().map(|s| s.to_string()).collect()
}

fn names(list: &[Dependency]) -> Vec<String> {
    list.iter().map(|d| d.name.clone()).collect()
}

fn scenario_catalog() -> Catalog {
    Catalog {
        packages: vec![
            pkg(
                "app",
                "0.1.0",
                &[("extra", &["right"])],
                vec![
                    dep("left", "1.0.0", DepKind::Normal, false, &[]),
                    dep("right", "1.0.0", DepKind::Normal, true, &[]),
                ],
            ),
            pkg(
                "left",
                "1.0.0",
                &[],
                vec![dep("shared", "1.0.0", DepKind::Normal, false, &[])],
            ),
            pkg(
                "right",
                "1.0.0",
                &[],
                vec![dep("shared", "1.0.0", DepKind::Normal, false, &[])],
            ),
            pkg("shared", "1.0.0", &[], vec![]),
        ],
    }
}

#[test]
fn scenario_without_extra_feature() {
    let cat = scenario_catalog();
    let list = get_dependencies(&cat, &strings(&["app"]), &strings(&[])).unwrap();
    assert_eq!(names(&list), vec!["app", "left", "shared"]);
}

#[test]
fn scenario_with_extra_feature() {
    let cat = scenario_catalog();
    let list = get_dependencies(&cat, &strings(&["app"]), &strings(&["extra"])).unwrap();
    assert_eq!(names(&list), vec!["app", "left", "right", "shared"]);
}

#[test]
fn required_closure_without_features() {
    // a -> b -> c over Normal edges; a Development and a Build edge are never
    // followed.
    let cat = Catalog {
        packages: vec![
            pkg(
                "a",
                "1.0.0",
                &[],
                vec![
                    dep("b", "1.0.0", DepKind::Normal, false, &[]),
                    dep("devonly", "1.0.0", DepKind::Development, false, &[]),
                    dep("buildonly", "1.0.0", DepKind::Build, false, &[]),
                ],
            ),
            pkg("b", "1.0.0", &[], vec![dep("c", "1.0.0", DepKind::Normal, false, &[])]),
            pkg("c", "1.0.0", &[], vec![]),
            pkg("devonly", "1.0.0", &[], vec![]),
            pkg("buildonly", "1.0.0", &[], vec![]),
        ],
    };
    let list = get_dependencies(&cat, &strings(&["a"]), &strings(&[])).unwrap();
    assert_eq!(names(&list), vec!["a", "b", "c"]);
}

#[test]
fn optional_dependency_needs_marker() {
    let cat = Catalog {
        packages: vec![
            pkg("app", "0.1.0", &[], vec![dep("opt", "1.0.0", DepKind::Normal, true, &[])]),
            pkg("opt", "1.0.0", &[], vec![]),
        ],
    };
    let without = get_dependencies(&cat, &strings(&["app"]), &strings(&[])).unwrap();
    assert_eq!(names(&without), vec!["app"]);
    let with = get_dependencies(&cat, &strings(&["app"]), &strings(&["opt"])).unwrap();
    assert_eq!(names(&with), vec!["app", "opt"]);
}

#[test]
fn default_feature_activates_optional_dependency() {
    let cat = Catalog {
        packages: vec![
            pkg(
                "app",
                "0.1.0",
                &[("default", &["opt"])],
                vec![dep("opt", "1.0.0", DepKind::Normal, true, &[])],
            ),
            pkg("opt", "1.0.0", &[], vec![]),
        ],
    };
    let list = get_dependencies(&cat, &strings(&["app"]), &strings(&[])).unwrap();
    assert_eq!(names(&list), vec!["app", "opt"]);
}

#[test]
fn qualified_feature_reaches_dependency() {
    // "inner/gate" on app must put "gate" into inner's activation set, which
    // there implies the optional dependency "deep".
    let cat = Catalog {
        packages: vec![
            pkg("app", "0.1.0", &[], vec![dep("inner", "1.0.0", DepKind::Normal, false, &[])]),
            pkg(
                "inner",
                "1.0.0",
                &[("gate", &["deep"])],
                vec![dep("deep", "1.0.0", DepKind::Normal, true, &[])],
            ),
            pkg("deep", "1.0.0", &[], vec![]),
        ],
    };
    let without = get_dependencies(&cat, &strings(&["app"]), &strings(&[])).unwrap();
    assert_eq!(names(&without), vec!["app", "inner"]);
    let with = get_dependencies(&cat, &strings(&["app"]), &strings(&["inner/gate"])).unwrap();
    assert_eq!(names(&with), vec!["app", "deep", "inner"]);
}

#[test]
fn edge_features_reach_dependency() {
    // The edge itself requests "gate" unconditionally.
    let cat = Catalog {
        packages: vec![
            pkg(
                "app",
                "0.1.0",
                &[],
                vec![dep("inner", "1.0.0", DepKind::Normal, false, &["gate"])],
            ),
            pkg(
                "inner",
                "1.0.0",
                &[("gate", &["deep"])],
                vec![dep("deep", "1.0.0", DepKind::Normal, true, &[])],
            ),
            pkg("deep", "1.0.0", &[], vec![]),
        ],
    };
    let list = get_dependencies(&cat, &strings(&["app"]), &strings(&[])).unwrap();
    assert_eq!(names(&list), vec!["app", "deep", "inner"]);
}

#[test]
fn diamond_collapses_to_one_entry() {
    let cat = scenario_catalog();
    let list = get_dependencies(&cat, &strings(&["app"]), &strings(&["extra"])).unwrap();
    let shared: Vec<&Dependency> = list.iter().filter(|d| d.name == "shared").collect();
    assert_eq!(shared.len(), 1);
}

#[test]
fn dedup_keeps_first_source() {
    // c is reached first through a's edge, whose source string differs from
    // b's; the surviving entry keeps the first-encountered source.
    let mut first = dep("c", "1.0.0", DepKind::Normal, false, &[]);
    first.source = "registry+https://one.example".to_string();
    let mut second = dep("c", "1.0.0", DepKind::Normal, false, &[]);
    second.source = "registry+https://two.example".to_string();
    let cat = Catalog {
        packages: vec![
            pkg(
                "app",
                "0.1.0",
                &[],
                vec![
                    dep("a", "1.0.0", DepKind::Normal, false, &[]),
                    dep("b", "1.0.0", DepKind::Normal, false, &[]),
                ],
            ),
            pkg("a", "1.0.0", &[], vec![first]),
            pkg("b", "1.0.0", &[], vec![second]),
            pkg("c", "1.0.0", &[], vec![]),
        ],
    };
    let list = get_dependencies(&cat, &strings(&["app"]), &strings(&[])).unwrap();
    let c = list.iter().find(|d| d.name == "c").unwrap();
    assert_eq!(c.source, "registry+https://one.example");
}

#[test]
fn output_is_sorted_by_name_then_version_string() {
    // Both versions of "pkg" are reachable; "10.0.0" sorts before "2.0.0"
    // in plain string order.
    let cat = Catalog {
        packages: vec![
            pkg(
                "app",
                "0.1.0",
                &[],
                vec![
                    dep("zeta", "1.0.0", DepKind::Normal, false, &[]),
                    dep("alpha", "1.0.0", DepKind::Normal, false, &[]),
                ],
            ),
            pkg("zeta", "1.0.0", &[], vec![dep("pkg", "=2.0.0", DepKind::Normal, false, &[])]),
            pkg("alpha", "1.0.0", &[], vec![dep("pkg", "=10.0.0", DepKind::Normal, false, &[])]),
            pkg("pkg", "10.0.0", &[], vec![]),
            pkg("pkg", "2.0.0", &[], vec![]),
        ],
    };
    let list = get_dependencies(&cat, &strings(&["app"]), &strings(&[])).unwrap();
    assert_eq!(names(&list), vec!["alpha", "app", "pkg", "pkg", "zeta"]);
    let versions: Vec<&str> =
        list.iter().filter(|d| d.name == "pkg").map(|d| d.version.as_str()).collect();
    assert_eq!(versions, vec!["10.0.0", "2.0.0"]);
}

#[test]
fn version_requirement_selects_matching_node() {
    let cat = Catalog {
        packages: vec![
            pkg("app", "0.1.0", &[], vec![dep("lib", "^1.0", DepKind::Normal, false, &[])]),
            pkg("lib", "2.3.0", &[], vec![]),
            pkg("lib", "1.5.0", &[], vec![]),
        ],
    };
    let list = get_dependencies(&cat, &strings(&["app"]), &strings(&[])).unwrap();
    let lib = list.iter().find(|d| d.name == "lib").unwrap();
    assert_eq!(lib.version, "1.5.0");
}

#[test]
fn missing_root_is_reported() {
    let cat = scenario_catalog();
    let r = get_dependencies(&cat, &strings(&["nosuch"]), &strings(&[]));
    assert!(matches!(r, Err(CatalogError::MissingRoot { .. })));
}

#[test]
fn missing_dependency_is_reported() {
    let cat = Catalog {
        packages: vec![pkg(
            "app",
            "0.1.0",
            &[],
            vec![dep("ghost", "1.0.0", DepKind::Normal, false, &[])],
        )],
    };
    let r = get_dependencies(&cat, &strings(&["app"]), &strings(&[]));
    match r {
        Err(CatalogError::MissingDependency { name, .. }) => assert_eq!(name, "ghost"),
        _ => panic!("expected a missing dependency"),
    }
}

#[test]
fn unsatisfied_requirement_is_reported() {
    let cat = Catalog {
        packages: vec![
            pkg("app", "0.1.0", &[], vec![dep("lib", "^2.0", DepKind::Normal, false, &[])]),
            pkg("lib", "1.5.0", &[], vec![]),
        ],
    };
    let r = get_dependencies(&cat, &strings(&["app"]), &strings(&[]));
    assert!(matches!(r, Err(CatalogError::MissingDependency { .. })));
}

#[test]
fn cyclic_dependencies_terminate() {
    let cat = Catalog {
        packages: vec![
            pkg("a", "1.0.0", &[], vec![dep("b", "1.0.0", DepKind::Normal, false, &[])]),
            pkg("b", "1.0.0", &[], vec![dep("a", "1.0.0", DepKind::Normal, false, &[])]),
        ],
    };
    let list = get_dependencies(&cat, &strings(&["a"]), &strings(&[])).unwrap();
    assert_eq!(names(&list), vec!["a", "b"]);
}

#[test]
fn multiple_roots_are_united() {
    let cat = scenario_catalog();
    let list = get_dependencies(&cat, &strings(&["left", "right"]), &strings(&[])).unwrap();
    assert_eq!(names(&list), vec!["left", "right", "shared"]);
}

#[test]
fn resolver_expands_implied_features_transitively() {
    let node = pkg(
        "p",
        "1.0.0",
        &[("a", &["b", "x/q"]), ("b", &["c"]), ("c", &[])],
        vec![],
    );
    let act = resolve_features(&node, &strings(&["a"]), false);
    for f in ["a", "b", "c", "x/q"] {
        assert!(act.iter().any(|g| g == f));
    }
    assert!(!act.iter().any(|g| g == "default"));
}

#[test]
fn resolver_records_unknown_markers() {
    let node = pkg("p", "1.0.0", &[], vec![]);
    let act = resolve_features(&node, &strings(&["mystery"]), true);
    assert!(act.iter().any(|g| g == "mystery"));
    assert_eq!(act.len(), 1);
}

#[test]
fn resolver_terminates_on_cyclic_features() {
    let node = pkg("p", "1.0.0", &[("a", &["b"]), ("b", &["a"])], vec![]);
    let act = resolve_features(&node, &strings(&["a"]), false);
    assert!(act.iter().any(|g| g == "a"));
    assert!(act.iter().any(|g| g == "b"));
}

#[test]
fn sort_is_stable_and_dedup_keeps_first() {
    let mk = |name: &str, version: &str, source: &str| Dependency {
        name: name.to_string(),
        version: version.to_string(),
        source: source.to_string(),
    };
    let raw = vec![
        mk("b", "1.0.0", "first"),
        mk("a", "1.0.0", "x"),
        mk("b", "1.0.0", "second"),
    ];
    let sorted = sort_deps(&raw);
    let names: Vec<&str> = sorted.iter().map(|d| d.name.as_str()).collect();
    assert_eq!(names, vec!["a", "b", "b"]);
    assert_eq!(sorted[1].source, "first");
    assert_eq!(sorted[2].source, "second");
    let deduped = dedup_deps(&sorted);
    let names: Vec<&str> = deduped.iter().map(|d| d.name.as_str()).collect();
    assert_eq!(names, vec!["a", "b"]);
    assert_eq!(deduped[1].source, "first");
}
