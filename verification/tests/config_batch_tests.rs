use pipeline_utils::batch_processor::{collect_results, extension_matches, ProcessResult};
use pipeline_utils::config::{num_cpus, PipelineConfig};
use pipeline_utils::error::PipelineError;

#[test]
fn default_config_uses_available_parallelism() {
    let c = PipelineConfig::default_with(Some(12));
    assert_eq!(c.max_threads, 12);
    assert_eq!(c.asset_root, ".");
    assert!(!c.verbose);
}

#[test]
fn default_config_falls_back_to_four_threads() {
    assert_eq!(num_cpus(None), 4);
    assert_eq!(PipelineConfig::default_with(None).max_threads, 4);
}

#[test]
fn parsed_config_wins_over_default() {
    let parsed = PipelineConfig { max_threads: 2, asset_root: "/assets".to_owned(), verbose: true };
    let c = PipelineConfig::or_default(Some(parsed), Some(8));
    assert_eq!(c.max_threads, 2);
    assert_eq!(c.asset_root, "/assets");
    assert!(c.verbose);
    let d = PipelineConfig::or_default(None, Some(8));
    assert_eq!(d.max_threads, 8);
}

#[test]
fn extension_filter_ignores_ascii_case() {
    assert!(extension_matches(true, Some("USDA"), "usda"));
    assert!(!extension_matches(false, Some("usda"), "usda"));
    assert!(!extension_matches(true, Some("fbx"), "usda"));
    assert!(!extension_matches(true, None, "usda"));
}

fn result(name: &str) -> Result<ProcessResult, PipelineError> {
    Ok(ProcessResult { source: name.to_owned(), dest: format!("out/{name}"), bytes: 1 })
}

#[test]
fn collect_results_keeps_order() {
    let all = collect_results(vec![result("a"), result("b")]).unwrap();
    assert_eq!(all.len(), 2);
    assert_eq!(all[1].source, "b");
}

#[test]
fn collect_results_returns_first_failure() {
    let r = collect_results(vec![
        result("a"),
        Err(PipelineError::Other("first".to_owned())),
        Err(PipelineError::Other("second".to_owned())),
    ]);
    match r {
        Err(PipelineError::Other(m)) => assert_eq!(m, "first"),
        _ => panic!("expected the first failure"),
    }
}
