use cargo_featurex::collect_result::{collect_results, CollectResult};
use cargo_featurex::metadata::{parse_features, FeatureName, FeaturexMetadata, FeaturexSection};
use lasso::{Key, MiniSpur, Rodeo};

fn resolve(rodeo: &Rodeo<MiniSpur>, key: usize) -> String {
    rodeo.resolve(&MiniSpur::try_from_usize(key).unwrap()).to_string()
}

#[test]
fn a_trailing_question_mark_makes_a_name_optional() {
    let mut rodeo: Rodeo<MiniSpur> = Rodeo::new();
    let names = vec!["std".to_string(), "serde?".to_string(), "?".to_string()];
    let parsed = parse_features(&names, &mut rodeo);
    assert_eq!(parsed.len(), 3);
    match parsed[0] {
        FeatureName::Required(k) => assert_eq!(resolve(&rodeo, k), "std"),
        _ => panic!("expected a required name"),
    }
    match parsed[1] {
        FeatureName::Optional(k) => assert_eq!(resolve(&rodeo, k), "serde"),
        _ => panic!("expected an optional name"),
    }
    match parsed[2] {
        FeatureName::Optional(k) => assert_eq!(resolve(&rodeo, k), ""),
        _ => panic!("expected an optional name"),
    }
}

#[test]
fn a_name_written_twice_gets_one_key() {
    let mut rodeo: Rodeo<MiniSpur> = Rodeo::new();
    let names = vec!["a".to_string(), "a?".to_string()];
    let parsed = parse_features(&names, &mut rodeo);
    assert_eq!(parsed, vec![FeatureName::Required(0), FeatureName::Optional(0)]);
    assert_eq!(rodeo.len(), 1);
}

#[test]
fn a_question_mark_inside_a_name_is_kept() {
    let mut rodeo: Rodeo<MiniSpur> = Rodeo::new();
    let names = vec!["a?b".to_string()];
    let parsed = parse_features(&names, &mut rodeo);
    match parsed[0] {
        FeatureName::Required(k) => assert_eq!(resolve(&rodeo, k), "a?b"),
        _ => panic!("expected a required name"),
    }
}

#[test]
fn an_absent_section_requires_and_ignores_nothing() {
    let mut rodeo: Rodeo<MiniSpur> = Rodeo::new();
    let m = FeaturexMetadata::from_featurex_metadata(&None, &mut rodeo);
    assert!(m.required.is_empty());
    assert!(m.ignored.is_empty());
    assert_eq!(rodeo.len(), 0);
}

#[test]
fn a_section_parses_both_lists() {
    let mut rodeo: Rodeo<MiniSpur> = Rodeo::new();
    let section = FeaturexSection {
        required: vec!["a".to_string()],
        ignored: vec!["b?".to_string(), "c".to_string()],
    };
    let m = FeaturexMetadata::from_featurex_metadata(&Some(section), &mut rodeo);
    assert_eq!(m.required, vec![FeatureName::Required(0)]);
    assert_eq!(m.ignored, vec![FeatureName::Optional(1), FeatureName::Required(2)]);
}

#[test]
fn collecting_without_errors_keeps_every_value() {
    let results: Vec<Result<u32, String>> = vec![Ok(1), Ok(2), Ok(3)];
    match collect_results(results).into_result() {
        Ok(values) => assert_eq!(values, vec![1, 2, 3]),
        Err(_) => panic!("expected values"),
    }
}

#[test]
fn collecting_with_errors_keeps_every_error() {
    let results: Vec<Result<u32, String>> =
        vec![Ok(1), Err("x".to_string()), Ok(3), Err("y".to_string())];
    match collect_results(results) {
        CollectResult::Errors(errors) => assert_eq!(errors, vec!["x", "y"]),
        CollectResult::Values(_) => panic!("expected errors"),
    }
}

#[test]
fn collecting_nothing_gives_no_values() {
    let results: Vec<Result<u32, String>> = Vec::new();
    match collect_results(results).into_result() {
        Ok(values) => assert!(values.is_empty()),
        Err(_) => panic!("expected values"),
    }
}
