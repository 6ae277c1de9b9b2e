use pipeline_utils::error::PipelineError;
use pipeline_utils::usd_resolver::{extract_at_refs, LayerInfo, LayerResolver, ResolveAction};

fn not_found() -> std::io::Error {
    std::io::Error::new(std::io::ErrorKind::NotFound, "no such file")
}

/// Drives a resolution against an in-memory file system: `files` maps each
/// canonical path to its text (`None`: it exists but cannot be read);
/// canonicalizing drops `/./` segments and fails for paths not in `files`.
fn resolve_with(root: &str, files: &[(&str, Option<&str>)]) -> Result<Vec<LayerInfo>, PipelineError> {
    let canonical = |p: &str| p.replace("/./", "/");
    let lookup = |p: &str| files.iter().find(|(f, _)| *f == canonical(p)).map(|(_, t)| *t);
    let mut resolver = LayerResolver::new(root);
    let mut action = resolver.action();
    loop {
        action = match action {
            ResolveAction::Canonicalize(p) => {
                let answer = match lookup(&p) {
                    Some(_) => Ok(canonical(&p)),
                    None => Err(not_found()),
                };
                resolver.advance(answer)
            }
            ResolveAction::Read(p) => {
                let answer = match lookup(&p) {
                    Some(Some(t)) => Ok(t.to_string()),
                    _ => Err(not_found()),
                };
                resolver.advance(answer)
            }
            ResolveAction::Done => return resolver.finish(),
        }
    }
}

/// As `resolve_with`, with every file readable.
fn resolve_in_memory(root: &str, files: &[(&str, &str)]) -> Result<Vec<LayerInfo>, PipelineError> {
    let all: Vec<(&str, Option<&str>)> = files.iter().map(|(f, t)| (*f, Some(*t))).collect();
    resolve_with(root, &all)
}

#[test]
fn test_resolve_single_file_no_refs() {
    let layers = resolve_in_memory("/tmp/root.usda", &[("/tmp/root.usda", r#"def Xform "Root" {}"#)]).unwrap();
    assert_eq!(layers.len(), 1);
    assert_eq!(layers[0].depth, 0);
}

#[test]
fn test_resolve_missing_ref_does_not_error() {
    let layers = resolve_in_memory(
        "/tmp/root.usda",
        &[("/tmp/root.usda", r#"references = [@./nonexistent_layer.usda@]"#)],
    )
    .unwrap();
    assert_eq!(layers.len(), 1); // only root added
}

#[test]
fn test_resolve_chain() {
    let child_name = "child.usda";
    let root_text = format!(r#"references = [@./{child_name}@]"#);
    let layers = resolve_in_memory(
        "/dir/root.usda",
        &[("/dir/child.usda", r#"def Mesh "Cube" {}"#), ("/dir/root.usda", &root_text)],
    )
    .unwrap();
    assert_eq!(layers.len(), 2);
    assert_eq!(layers[0].depth, 0);
    assert_eq!(layers[1].depth, 1);
}

#[test]
fn test_resolve_cycle_does_not_loop() {
    let layers = resolve_in_memory(
        "/dir/a.usda",
        &[("/dir/a.usda", r#"references = [@./b.usda@]"#), ("/dir/b.usda", r#"references = [@./a.usda@]"#)],
    )
    .unwrap();
    assert_eq!(layers.len(), 2); // visited guard prevents infinite recursion
}

#[test]
fn references_are_joined_to_the_parent_directory() {
    let mut resolver = LayerResolver::new("/assets/shot/root.usda");
    match resolver.advance(Ok("/assets/shot/root.usda".to_owned())) {
        ResolveAction::Read(p) => assert_eq!(p, "/assets/shot/root.usda"),
        _ => panic!("expected a read"),
    }
    match resolver.advance(Ok("@../lib/prop.usda@".to_owned())) {
        ResolveAction::Canonicalize(p) => assert_eq!(p, "/assets/shot/../lib/prop.usda"),
        _ => panic!("expected a canonicalization"),
    }
}

#[test]
fn a_bare_file_name_resolves_next_to_it() {
    let mut resolver = LayerResolver::new("root.usda");
    resolver.advance(Err(not_found()));
    match resolver.advance(Ok("@sub/a.usda@".to_owned())) {
        ResolveAction::Canonicalize(p) => assert_eq!(p, "sub/a.usda"),
        _ => panic!("expected a canonicalization"),
    }
}

#[test]
fn missing_root_is_still_listed() {
    let layers = resolve_in_memory("/nowhere/root.usda", &[]).unwrap();
    assert_eq!(layers.len(), 1);
    assert_eq!(layers[0].path, "/nowhere/root.usda");
}

#[test]
fn layers_come_in_depth_first_order() {
    let layers = resolve_in_memory(
        "/d/r.usda",
        &[
            ("/d/r.usda", "@./a.usda@ @./b.usda@"),
            ("/d/a.usda", "@./c.usda@"),
            ("/d/b.usda", ""),
            ("/d/c.usda", ""),
        ],
    )
    .unwrap();
    let seen: Vec<(usize, &str)> = layers.iter().map(|l| (l.depth, l.path.as_str())).collect();
    assert_eq!(seen, vec![(0, "/d/r.usda"), (1, "/d/a.usda"), (2, "/d/c.usda"), (1, "/d/b.usda")]);
}

#[test]
fn depth_is_limited() {
    let names: Vec<String> = (0..40).map(|i| format!("/c/l{i}.usda")).collect();
    let texts: Vec<String> = (0..40).map(|i| format!("@./l{}.usda@", i + 1)).collect();
    let files: Vec<(&str, &str)> = names.iter().zip(texts.iter()).map(|(n, t)| (n.as_str(), t.as_str())).collect();
    let layers = resolve_in_memory("/c/l0.usda", &files).unwrap();
    assert_eq!(layers.len(), 33);
    assert_eq!(layers[32].depth, 32);
}

#[test]
fn null_byte_in_reference_is_an_error() {
    let result = resolve_in_memory("/d/r.usda", &[("/d/r.usda", "@./a\0.usda@")]);
    match result {
        Err(PipelineError::InvalidUsdRef { file, detail }) => {
            assert_eq!(file, "/d/r.usda");
            assert_eq!(detail, "null byte in reference: ./a\0.usda");
        }
        _ => panic!("expected an invalid reference"),
    }
}

#[test]
fn unreadable_root_is_kept_without_references() {
    let mut resolver = LayerResolver::new("/d/r.usda");
    resolver.advance(Ok("/d/r.usda".to_owned()));
    assert!(matches!(resolver.advance(Err(not_found())), ResolveAction::Done));
    let layers = resolver.finish().unwrap();
    assert_eq!(layers.len(), 1);
}

#[test]
fn extract_at_refs_matches_extract_refs() {
    assert_eq!(extract_at_refs("@ a @ @b@"), vec!["a".to_owned(), "b".to_owned()]);
}

#[test]
fn unreadable_referenced_layer_is_an_io_error() {
    let result = resolve_with("/d/r.usda", &[("/d/r.usda", Some("@./a.usda@")), ("/d/a.usda", None)]);
    assert!(matches!(result, Err(PipelineError::Io(_))));
}

#[test]
fn unreadable_layer_after_missing_one_is_still_an_error() {
    let result = resolve_with(
        "/d/r.usda",
        &[("/d/r.usda", Some("@./gone.usda@ @./a.usda@")), ("/d/a.usda", None)],
    );
    assert!(matches!(result, Err(PipelineError::Io(_))));
}
