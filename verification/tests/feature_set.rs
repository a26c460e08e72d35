use cargo_featurex::feature_set::{
    feature_order, CreateMetadataBitSetError, FeatureSet, FeatureSetBuilder, FeatureSetFailure,
    FeaturesIter,
};
use cargo_featurex::metadata::{FeaturexMetadata, FeaturexMetadataError, FeaturexSection};
use cargo_featurex::PackageManifest;
use lasso::{MiniSpur, Rodeo};
use std::rc::Rc;

fn strings(names: &[&str]) -> Vec<String> {
    names.iter().map(|s| s.to_string()).collect()
}

fn manifest(features: &[(&str, &[&str])]) -> PackageManifest {
    PackageManifest {
        id: "pkg 0.1.0".to_string(),
        name: "pkg".to_string(),
        version: "0.1.0".to_string(),
        manifest_path: "/pkg/Cargo.toml".to_string(),
        features: features
            .iter()
            .map(|(name, deps)| (name.to_string(), strings(deps)))
            .collect(),
        featurex: Ok(None),
    }
}

fn section(required: &[&str], ignored: &[&str]) -> FeaturexSection {
    FeaturexSection { required: strings(required), ignored: strings(ignored) }
}

fn build(
    package: &PackageManifest,
    workspace: Option<FeaturexSection>,
) -> Result<FeatureSet, FeatureSetFailure> {
    let mut rodeo: Rodeo<MiniSpur> = Rodeo::new();
    let ws = FeaturexMetadata::from_featurex_metadata(&workspace, &mut rodeo);
    let builder: FeatureSetBuilder =
        FeatureSet::builder(&mut rodeo, package, &ws).map_err(|e| e.cause)?;
    Ok(builder.build(Rc::new(rodeo.into_reader())))
}

fn names(mut iter: FeaturesIter<'_>) -> Vec<String> {
    let mut out = Vec::new();
    while let Some(f) = iter.next() {
        out.push(f.name().to_string());
    }
    out
}

fn all_permutations(set: &FeatureSet) -> Vec<Vec<String>> {
    let mut perms = set.permutations();
    let mut out = Vec::new();
    while let Some(p) = perms.next() {
        out.push(names(p.iter()));
    }
    out
}

fn example() -> PackageManifest {
    manifest(&[
        ("default", &["a"]),
        ("a", &["b", "dep:x", "serde/std"]),
        ("b", &[]),
        ("c", &["a", "b"]),
    ])
}

#[test]
fn features_are_numbered_after_their_dependencies() {
    let set = build(&example(), None).ok().unwrap();
    assert_eq!(names(set.features()), vec!["b", "a", "default", "c"]);
}

#[test]
fn unknown_dependencies_are_dropped() {
    let set = build(&manifest(&[("a", &["dep:serde", "serde?/std", "other/x"])]), None)
        .ok()
        .unwrap();
    assert_eq!(names(set.features()), vec!["a"]);
}

#[test]
fn default_features_follow_the_default_feature() {
    let set = build(&example(), None).ok().unwrap();
    let enabled: Vec<bool> = ["b", "a", "default", "c"]
        .iter()
        .map(|n| set.get(n).unwrap().enabled_by_default())
        .collect();
    assert_eq!(enabled, vec![true, true, true, false]);
}

#[test]
fn without_a_default_feature_nothing_is_enabled_by_default() {
    let set = build(&manifest(&[("a", &[]), ("b", &["a"])]), None).ok().unwrap();
    assert!(!set.get("a").unwrap().enabled_by_default());
    assert!(!set.get("b").unwrap().enabled_by_default());
}

#[test]
fn a_feature_enables_what_its_dependencies_enable() {
    let set = build(&example(), None).ok().unwrap();
    let a = set.get("a").unwrap();
    let b = set.get("b").unwrap();
    let c = set.get("c").unwrap();
    assert!(c.is_superset(&a));
    assert!(c.is_superset(&b));
    assert!(a.is_superset(&b));
    assert!(!a.is_superset(&c));
    assert!(!b.is_superset(&a));
    assert!(a.is_superset(&a));
}

#[test]
fn get_finds_features_by_name() {
    let set = build(&example(), None).ok().unwrap();
    assert_eq!(set.get("c").unwrap().name(), "c");
    assert!(set.get("dep:x").is_none());
    assert!(set.get("").is_none());
}

#[test]
fn a_dependency_cycle_is_refused() {
    let r = build(&manifest(&[("a", &["b"]), ("b", &["a"]), ("c", &[])]), None);
    assert!(matches!(r, Err(FeatureSetFailure::DependencyCycle)));
}

#[test]
fn a_feature_that_depends_on_itself_is_refused() {
    let r = build(&manifest(&[("a", &["a"])]), None);
    assert!(matches!(r, Err(FeatureSetFailure::DependencyCycle)));
}

#[test]
fn an_empty_package_has_one_permutation() {
    let set = build(&manifest(&[]), None).ok().unwrap();
    assert_eq!(names(set.features()), Vec::<String>::new());
    assert_eq!(all_permutations(&set), vec![Vec::<String>::new()]);
}

#[test]
fn permutations_are_distinct_closures() {
    let set = build(&example(), None).ok().unwrap();
    assert_eq!(
        all_permutations(&set),
        vec![
            strings(&[]),
            strings(&["b"]),
            strings(&["b", "a"]),
            strings(&["b", "a", "default"]),
            strings(&["b", "a", "c"]),
            strings(&["b", "a", "default", "c"]),
        ]
    );
}

#[test]
fn required_features_are_in_every_permutation_and_ignored_ones_are_not_varied() {
    let mut package = example();
    package.featurex = Ok(Some(section(&["b"], &["default"])));
    let set = build(&package, None).ok().unwrap();
    assert_eq!(names(set.required()), vec!["b"]);
    assert_eq!(
        all_permutations(&set),
        vec![strings(&["b"]), strings(&["b", "a"]), strings(&["b", "a", "c"])]
    );
}

#[test]
fn independent_features_give_every_subset() {
    let set = build(&manifest(&[("x", &[]), ("y", &[]), ("z", &[])]), None).ok().unwrap();
    let perms = all_permutations(&set);
    assert_eq!(perms.len(), 8);
    assert_eq!(perms[0], Vec::<String>::new());
    assert_eq!(perms[7], strings(&["x", "z", "y"]));
    for (i, p) in perms.iter().enumerate() {
        for q in &perms[i + 1..] {
            assert_ne!(p, q);
        }
    }
}

#[test]
fn workspace_lists_add_to_the_package_lists() {
    let mut package = example();
    package.featurex = Ok(Some(section(&["b"], &[])));
    let set = build(&package, Some(section(&["missing?"], &["c", "default"]))).ok().unwrap();
    assert_eq!(names(set.required()), vec!["b"]);
    assert_eq!(all_permutations(&set), vec![strings(&["b"]), strings(&["b", "a"])]);
}

#[test]
fn a_missing_required_feature_is_reported() {
    let mut package = example();
    package.featurex = Ok(Some(section(&["nope", "a", "gone"], &[])));
    match build(&package, None) {
        Err(FeatureSetFailure::MetadataBitSet(e)) => {
            assert_eq!(e.name, "required");
            match e.cause {
                CreateMetadataBitSetError::Package(missing) => {
                    let names: Vec<String> = missing.into_iter().map(|m| m.name).collect();
                    assert_eq!(names, strings(&["nope", "gone"]));
                }
                _ => panic!("expected the package's list to be blamed"),
            }
        }
        _ => panic!("expected a metadata error"),
    }
}

#[test]
fn a_missing_optional_feature_is_skipped() {
    let mut package = example();
    package.featurex = Ok(Some(section(&["nope?", "a"], &["gone?"])));
    let set = build(&package, None).ok().unwrap();
    assert_eq!(names(set.required()), vec!["a"]);
}

#[test]
fn a_missing_workspace_feature_is_reported() {
    match build(&example(), Some(section(&[], &["zz"]))) {
        Err(FeatureSetFailure::MetadataBitSet(e)) => {
            assert_eq!(e.name, "ignored");
            match e.cause {
                CreateMetadataBitSetError::Workspace(missing) => {
                    assert_eq!(missing.len(), 1);
                    assert_eq!(missing[0].name, "zz");
                }
                _ => panic!("expected the workspace's list to be blamed"),
            }
        }
        _ => panic!("expected a metadata error"),
    }
}

#[test]
fn missing_features_of_both_lists_are_reported() {
    let mut package = example();
    package.featurex = Ok(Some(section(&["p"], &[])));
    match build(&package, Some(section(&["w1", "w2"], &[]))) {
        Err(FeatureSetFailure::MetadataBitSet(e)) => {
            assert_eq!(e.name, "required");
            match e.cause {
                CreateMetadataBitSetError::Both(p, w) => {
                    assert_eq!(p.len(), 1);
                    assert_eq!(p[0].name, "p");
                    let w: Vec<String> = w.into_iter().map(|m| m.name).collect();
                    assert_eq!(w, strings(&["w1", "w2"]));
                }
                _ => panic!("expected both lists to be blamed"),
            }
        }
        _ => panic!("expected a metadata error"),
    }
}

#[test]
fn malformed_metadata_is_reported() {
    let mut package = example();
    package.featurex = Err(FeaturexMetadataError);
    assert!(matches!(build(&package, None), Err(FeatureSetFailure::Metadata(_))));
}

#[test]
fn a_cycle_is_reported_before_malformed_metadata() {
    let mut package = manifest(&[("a", &["a"])]);
    package.featurex = Err(FeaturexMetadataError);
    assert!(matches!(build(&package, None), Err(FeatureSetFailure::DependencyCycle)));
}

#[test]
fn only_the_first_word_of_features_is_listed() {
    let owned: Vec<(String, Vec<String>)> =
        (0..70).map(|i| (format!("f{}", i), Vec::new())).collect();
    let package = PackageManifest {
        id: "big".to_string(),
        name: "big".to_string(),
        version: "1.0.0".to_string(),
        manifest_path: "/big/Cargo.toml".to_string(),
        features: owned,
        featurex: Ok(Some(section(&[], &[]))),
    };
    let set = build(&package, None).ok().unwrap();
    let listed = names(set.features());
    assert_eq!(listed.len(), 64);
    assert_eq!(listed[0], "f0");
    assert_eq!(listed[1], "f69");
    assert_eq!(listed[63], "f7");
    assert_eq!(set.get("f1").unwrap().name(), "f1");
}

#[test]
fn a_clone_has_the_same_features() {
    let set = build(&example(), None).ok().unwrap();
    let copy = set.clone();
    assert_eq!(names(copy.features()), names(set.features()));
    assert_eq!(all_permutations(&copy), all_permutations(&set));
}

#[test]
fn debug_output_lists_the_features_in_order() {
    let set = build(&example(), None).ok().unwrap();
    assert_eq!(
        set.debug_string(),
        "FeatureSet { features: [\"b\", \"a\", \"default\", \"c\"], .. }"
    );
}

#[test]
fn debug_output_of_an_empty_set() {
    let set = build(&manifest(&[]), None).ok().unwrap();
    assert_eq!(set.debug_string(), "FeatureSet { features: [], .. }");
}

#[test]
fn feature_order_names_features_in_dependency_order() {
    let order = feature_order(&example().features).unwrap();
    assert_eq!(order, vec!["b", "a", "default", "c"]);
    let cyclic = manifest(&[("a", &["b"]), ("b", &["a"])]);
    assert!(feature_order(&cyclic.features).is_none());
}

#[test]
fn each_feature_is_found_again_by_its_name() {
    let set = build(&example(), None).ok().unwrap();
    let mut iter = set.features();
    while let Some(f) = iter.next() {
        let g = set.get(f.name()).unwrap();
        assert_eq!(g.name(), f.name());
        assert!(g.is_superset(&f) && f.is_superset(&g));
    }
}

#[test]
fn distinct_features_do_not_enable_each_other_both_ways() {
    let set = build(&example(), None).ok().unwrap();
    let a = set.get("a").unwrap();
    let b = set.get("b").unwrap();
    let c = set.get("c").unwrap();
    assert!(a.is_superset(&b) && !b.is_superset(&a));
    assert!(c.is_superset(&a) && c.is_superset(&b));
}

#[test]
fn a_combination_iterates_the_same_twice() {
    let package = manifest(&[("a", &[]), ("b", &[])]);
    let set = build(&package, None).ok().unwrap();
    let mut perms = set.permutations();
    while let Some(p) = perms.next() {
        assert_eq!(names(p.iter()), names(p.iter()));
    }
}
