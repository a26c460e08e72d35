use cargo_featurex::feature_set::FeatureSetFailure;
use cargo_featurex::metadata::{FeaturexMetadataError, FeaturexSection};
use cargo_featurex::feature_set::feature_order;
use cargo_featurex::{
    workspace_from_metadata, workspace_within_limits, PackageManifest, WorkspaceFailure,
};

fn package(id: &str, features: &[(&str, &[&str])]) -> PackageManifest {
    PackageManifest {
        id: id.to_string(),
        name: format!("{}-name", id),
        version: "1.2.3".to_string(),
        manifest_path: format!("/{}/Cargo.toml", id),
        features: features
            .iter()
            .map(|(n, d)| (n.to_string(), d.iter().map(|s| s.to_string()).collect()))
            .collect(),
        featurex: Ok(None),
    }
}

fn ids(v: &[&str]) -> Vec<String> {
    v.iter().map(|s| s.to_string()).collect()
}

#[test]
fn only_members_are_kept_and_the_root_is_found() {
    let packages = vec![
        package("p1", &[("a", &[])]),
        package("dep", &[]),
        package("p2", &[("x", &[]), ("y", &["x"])]),
    ];
    let ws = workspace_from_metadata(packages, ids(&["p2", "p1"]), Some("p2".to_string()), Ok(None))
        .ok()
        .unwrap();
    let all: Vec<&str> = ws.all_packages().iter().map(|p| p.id()).collect();
    assert_eq!(all, vec!["p1", "p2"]);
    let selected: Vec<&str> = ws.packages().iter().map(|p| p.id()).collect();
    assert_eq!(selected, vec!["p2"]);
    let root = ws.root().unwrap();
    assert_eq!(root.name(), "p2-name");
    assert_eq!(root.version(), "1.2.3");
    assert_eq!(root.manifest_path(), "/p2/Cargo.toml");
    assert!(root.features.get("y").is_some());
    let info = root.info();
    assert_eq!(info.id, "p2");
    assert_eq!(info.name, "p2-name");
}

#[test]
fn without_a_root_every_package_is_selected() {
    let packages = vec![package("p1", &[]), package("p2", &[])];
    let ws = workspace_from_metadata(packages, ids(&["p1", "p2"]), None, Ok(None)).ok().unwrap();
    assert!(ws.root().is_none());
    assert_eq!(ws.packages().len(), 2);
}

#[test]
fn every_failing_package_is_reported() {
    let packages = vec![
        package("p1", &[("a", &["a"])]),
        package("p2", &[("b", &[])]),
        package("p3", &[("c", &["d"]), ("d", &["c"])]),
    ];
    match workspace_from_metadata(packages, ids(&["p1", "p2", "p3"]), None, Ok(None)) {
        Err(e) => match e.cause {
            WorkspaceFailure::Packages(errors) => {
                let failed: Vec<String> = errors.iter().map(|e| e.package_id.clone()).collect();
                assert_eq!(failed, ids(&["p1", "p3"]));
                assert!(matches!(errors[0].cause.cause, FeatureSetFailure::DependencyCycle));
            }
            _ => panic!("expected package errors"),
        },
        Ok(_) => panic!("expected an error"),
    }
}

#[test]
fn malformed_workspace_metadata_is_reported() {
    let r = workspace_from_metadata(vec![package("p1", &[])], ids(&["p1"]), None, Err(FeaturexMetadataError));
    match r {
        Err(e) => assert!(matches!(e.cause, WorkspaceFailure::Metadata(_))),
        Ok(_) => panic!("expected an error"),
    }
}

#[test]
fn workspace_metadata_applies_to_every_package() {
    let packages = vec![package("p1", &[("a", &[]), ("b", &[])]), package("p2", &[("b", &[])])];
    let section = FeaturexSection { required: ids(&["b"]), ignored: Vec::new() };
    let ws = workspace_from_metadata(packages, ids(&["p1", "p2"]), None, Ok(Some(section)))
        .ok()
        .unwrap();
    for p in ws.packages() {
        let mut required = p.features.required();
        let first = required.next().unwrap();
        assert_eq!(first.name(), "b");
        assert!(required.next().is_none());
    }
}

#[test]
fn a_workspace_requirement_missing_from_a_package_fails_it() {
    let packages = vec![package("p1", &[("a", &[])]), package("p2", &[("b", &[])])];
    let section = FeaturexSection { required: ids(&["b"]), ignored: Vec::new() };
    match workspace_from_metadata(packages, ids(&["p1", "p2"]), None, Ok(Some(section))) {
        Err(e) => match e.cause {
            WorkspaceFailure::Packages(errors) => {
                assert_eq!(errors.len(), 1);
                assert_eq!(errors[0].package_id, "p1");
            }
            _ => panic!("expected package errors"),
        },
        Ok(_) => panic!("expected an error"),
    }
}

fn wide_package(required: &str) -> PackageManifest {
    let names: Vec<String> = (0..70).map(|i| format!("f{}", i)).collect();
    let mut p = package("wide", &[]);
    p.features = names.iter().map(|n| (n.clone(), Vec::new())).collect();
    p.featurex = Ok(Some(FeaturexSection {
        required: vec![required.to_string()],
        ignored: Vec::new(),
    }));
    p
}

#[test]
fn a_feature_numbered_past_the_word_is_outside_the_limits() {
    let order = feature_order(&wide_package("f0").features).unwrap();
    let far = wide_package(&order[65]);
    assert!(workspace_within_limits(vec![far], ids(&["wide"]), None, Ok(None)).is_none());
    let near = wide_package(&order[3]);
    let ws = workspace_within_limits(vec![near], ids(&["wide"]), None, Ok(None))
        .unwrap()
        .ok()
        .unwrap();
    assert_eq!(ws.packages().len(), 1);
}

#[test]
fn a_root_outside_the_members_is_outside_the_limits() {
    let packages = vec![package("p1", &[]), package("p2", &[])];
    let r = workspace_within_limits(packages, ids(&["p1"]), Some("p2".to_string()), Ok(None));
    assert!(r.is_none());
}

#[test]
fn within_the_limits_the_workspace_is_assembled() {
    let packages = vec![package("p1", &[("a", &[])]), package("p2", &[])];
    let ws = workspace_within_limits(packages, ids(&["p1", "p2"]), Some("p1".to_string()), Ok(None))
        .unwrap()
        .ok()
        .unwrap();
    assert_eq!(ws.root().unwrap().id(), "p1");
}

#[test]
fn malformed_workspace_metadata_is_within_the_limits() {
    let r = workspace_within_limits(vec![], ids(&[]), Some("x".to_string()), Err(FeaturexMetadataError));
    assert!(matches!(r, Some(Err(_))));
}

#[test]
fn a_failing_member_is_reported_though_the_root_is_no_member() {
    let packages = vec![package("p1", &[("a", &["b"]), ("b", &["a"])])];
    let r = workspace_within_limits(packages, ids(&["p1"]), Some("other".to_string()), Ok(None));
    match r {
        Some(Err(e)) => assert!(matches!(e.cause, WorkspaceFailure::Packages(_))),
        _ => panic!("expected the failing member to be reported"),
    }
}
