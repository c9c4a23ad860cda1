use cargo_grime_cremator::live_set::{
    dedup_targets, workspace_targets, LiveSet, Metadata, Package, Target, WorkspaceTarget,
};

fn target(name: &str, kinds: &[&str]) -> Target {
    Target {
        name: name.to_string(),
        kind: kinds.iter().map(|k| k.to_string()).collect(),
    }
}

fn package(id: &str, name: &str, targets: Vec<Target>) -> Package {
    Package {
        id: id.to_string(),
        name: name.to_string(),
        targets,
    }
}

fn project() -> Metadata {
    Metadata {
        packages: vec![
            package(
                "app 1.0",
                "my-app",
                vec![
                    target("my-app", &["bin"]),
                    target("model-viewer", &["example"]),
                    target("build-script-build", &["custom-build"]),
                ],
            ),
            package("serde 1.0", "serde", vec![target("serde_lib", &["lib"])]),
            package(
                "util 0.1",
                "my-util",
                vec![target("util", &["lib", "cdylib"]), target("odd", &[])],
            ),
            package("app 1.0", "impostor", vec![target("impostor-bin", &["bin"])]),
        ],
        workspace_members: vec![
            "util 0.1".to_string(),
            "app 1.0".to_string(),
            "missing 1.0".to_string(),
        ],
    }
}

#[test]
fn live_set_has_packages_and_member_targets() {
    let live = LiveSet::from_manifest(&project());
    for name in [
        "my-app",
        "serde",
        "my-util",
        "impostor",
        "model-viewer",
        "util",
        "odd",
        "build-script-build",
        "build_script_build",
    ] {
        assert!(live.contains(name), "{}", name);
        assert!(live.matches_any(name), "{}", name);
    }
    assert_eq!(live.len(), 9);
    assert!(!live.is_empty());
    // A target of a dependency is not live, nor one of a package that another
    // one with its id stands before.
    assert!(!live.contains("serde_lib"));
    assert!(!live.contains("impostor-bin"));
}

#[test]
fn snake_forms_are_live_too() {
    let live = LiveSet::from_manifest(&project());
    assert!(live.contains_snake("my_app"));
    assert!(live.contains_snake("model_viewer"));
    assert!(live.contains_snake("serde"));
    assert!(!live.contains_snake("my-app"));
    assert!(!live.contains("my_app"));
    assert!(live.matches_any("my_app"));
    assert!(!live.matches_any("other"));
}

#[test]
fn members_are_package_and_target_names() {
    let live = LiveSet::from_manifest(&project());
    for name in ["my-app", "model-viewer", "my-util", "util", "odd"] {
        assert!(live.is_workspace_member(name), "{}", name);
    }
    for name in ["serde", "impostor", "build_script_build", "my_app"] {
        assert!(!live.is_workspace_member(name), "{}", name);
    }
    let prefixes = live.workspace_member_prefixes();
    assert!(prefixes.contains_either("model_viewer"));
    assert!(prefixes.contains_either("model-viewer"));
    assert!(!prefixes.contains_either("serde"));
}

#[test]
fn names_make_a_live_set() {
    let live = LiveSet::from_names(&["cfg-if", "cfg-if"]);
    assert_eq!(live.len(), 2);
    assert!(live.contains("cfg-if"));
    assert!(live.contains("build_script_build"));
    assert!(live.contains_snake("cfg_if"));
    assert!(!live.is_workspace_member("cfg-if"));
    let live = LiveSet::from_names_with_ws(&["xp5", "serde"], &["xp5"]);
    assert!(live.is_workspace_member("xp5"));
    assert!(!live.is_workspace_member("serde"));
}

fn shown(targets: &[WorkspaceTarget]) -> Vec<(String, String, String)> {
    targets
        .iter()
        .map(|t| (t.kind.clone(), t.name.clone(), t.package.clone()))
        .collect()
}

fn row(kind: &str, name: &str, package: &str) -> (String, String, String) {
    (kind.to_string(), name.to_string(), package.to_string())
}

#[test]
fn targets_are_listed_by_kind_and_name() {
    let targets = workspace_targets(&project());
    assert_eq!(
        shown(&targets),
        vec![
            row("bin", "my-app", "my-app"),
            row("example", "model-viewer", "my-app"),
            row("lib", "util", "my-util"),
            row("unknown", "odd", "my-util"),
        ]
    );
}

#[test]
fn targets_of_one_kind_and_name_keep_their_order() {
    let m = Metadata {
        packages: vec![
            package("b", "b", vec![target("x", &["bin"]), target("w", &["bin"])]),
            package("a", "a", vec![target("x", &["bin"]), target("x", &["bin"])]),
        ],
        workspace_members: vec!["b".to_string(), "a".to_string(), "b".to_string()],
    };
    let targets = workspace_targets(&m);
    assert_eq!(
        shown(&targets),
        vec![
            row("bin", "w", "b"),
            row("bin", "w", "b"),
            row("bin", "x", "b"),
            row("bin", "x", "a"),
            row("bin", "x", "a"),
            row("bin", "x", "b"),
        ]
    );
    // Only neighbours count as repeats.
    assert_eq!(
        shown(&dedup_targets(targets)),
        vec![
            row("bin", "w", "b"),
            row("bin", "x", "b"),
            row("bin", "x", "a"),
            row("bin", "x", "b"),
        ]
    );
}
