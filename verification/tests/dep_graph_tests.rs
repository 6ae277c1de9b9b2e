use pipeline_utils::dep_graph::{build_graph, detect_cycle, extract_refs, is_usda_extension, DepGraph, EdgeMap};

#[test]
fn test_extract_refs_finds_paths() {
    let content = r#"references = [@./chars/hero.usda@, @./envs/set.usda@]"#;
    let refs = extract_refs(content);
    assert_eq!(refs.len(), 2);
    assert!(refs.iter().any(|r| r.contains("hero.usda")));
}

#[test]
fn test_extract_refs_empty() {
    let refs = extract_refs("def Xform \"Root\" {}");
    assert!(refs.is_empty());
}

#[test]
fn test_detect_cycle_none() {
    let mut edges = EdgeMap::new();
    edges.insert("a".to_owned(), vec!["b".to_owned()]);
    edges.insert("b".to_owned(), vec!["c".to_owned()]);
    edges.insert("c".to_owned(), vec![]);
    assert!(!detect_cycle(&edges));
}

#[test]
fn test_detect_cycle_found() {
    let mut edges = EdgeMap::new();
    edges.insert("a".to_owned(), vec!["b".to_owned()]);
    edges.insert("b".to_owned(), vec!["c".to_owned()]);
    edges.insert("c".to_owned(), vec!["a".to_owned()]); // cycle
    assert!(detect_cycle(&edges));
}

#[test]
fn test_build_graph_single_file() {
    let path = "/tmp/scene.usda";
    let files = vec![(path.to_owned(), r#"references = [@./sub.usda@]"#.to_owned())];
    let graph = build_graph(&files);
    assert!(graph.edges.contains_key(path));
}

#[test]
fn extract_refs_trims_and_skips_blank_references() {
    let refs = extract_refs("a @  x.usda\t@ b @@ c @ \n @ d @y.usda@");
    assert_eq!(refs, vec!["x.usda".to_owned(), "y.usda".to_owned()]);
}

#[test]
fn extract_refs_unterminated_reference_runs_to_end() {
    let refs = extract_refs("ref = @ ./open.usda ");
    assert_eq!(refs, vec!["./open.usda".to_owned()]);
}

#[test]
fn extract_refs_closing_marker_does_not_open_another() {
    let refs = extract_refs("@a@b@c@");
    assert_eq!(refs, vec!["a".to_owned(), "c".to_owned()]);
}

#[test]
fn extract_refs_trims_unicode_white_space() {
    let refs = extract_refs("@\u{3000}wide.usda\u{A0}@");
    assert_eq!(refs, vec!["wide.usda".to_owned()]);
}

#[test]
fn self_loop_is_a_cycle() {
    let mut edges = EdgeMap::new();
    edges.insert("a".to_owned(), vec!["a".to_owned()]);
    assert!(detect_cycle(&edges));
}

#[test]
fn references_to_unknown_nodes_form_no_cycle() {
    let mut edges = EdgeMap::new();
    edges.insert("a".to_owned(), vec!["x".to_owned(), "b".to_owned()]);
    edges.insert("b".to_owned(), vec!["x".to_owned()]);
    assert!(!detect_cycle(&edges));
}

#[test]
fn diamond_is_not_a_cycle() {
    let mut edges = EdgeMap::new();
    edges.insert("a".to_owned(), vec!["b".to_owned(), "c".to_owned()]);
    edges.insert("b".to_owned(), vec!["d".to_owned()]);
    edges.insert("c".to_owned(), vec!["d".to_owned()]);
    edges.insert("d".to_owned(), vec![]);
    assert!(!detect_cycle(&edges));
}

#[test]
fn cycle_away_from_first_node_is_found() {
    let mut edges = EdgeMap::new();
    edges.insert("root".to_owned(), vec![]);
    edges.insert("p".to_owned(), vec!["q".to_owned()]);
    edges.insert("q".to_owned(), vec!["r".to_owned()]);
    edges.insert("r".to_owned(), vec!["q".to_owned()]);
    assert!(detect_cycle(&edges));
}

#[test]
fn insert_replaces_references_of_existing_node() {
    let mut edges = EdgeMap::new();
    edges.insert("a".to_owned(), vec!["a".to_owned()]);
    edges.insert("a".to_owned(), vec!["b".to_owned()]);
    assert_eq!(edges.len(), 1);
    assert_eq!(edges.get("a"), Some(&vec!["b".to_owned()]));
    assert_eq!(edges.get("b"), None);
    assert!(!detect_cycle(&edges));
}

#[test]
fn build_graph_flags_cycle_between_files() {
    let files = vec![
        ("a.usda".to_owned(), "@b.usda@".to_owned()),
        ("b.usda".to_owned(), "sublayers = [@a.usda@]".to_owned()),
    ];
    let graph = build_graph(&files);
    assert!(graph.has_cycle);
    assert_eq!(graph.edges.get("b.usda"), Some(&vec!["a.usda".to_owned()]));
}

#[test]
fn build_graph_without_cycle() {
    let files = vec![
        ("a.usda".to_owned(), "@b.usda@ @c.usda@".to_owned()),
        ("b.usda".to_owned(), "@c.usda@".to_owned()),
    ];
    let graph = build_graph(&files);
    assert!(!graph.has_cycle);
    assert_eq!(graph.edges.len(), 2);
}

#[test]
fn default_graph_is_empty() {
    let graph = DepGraph::default();
    assert_eq!(graph.edges.len(), 0);
    assert!(!graph.has_cycle);
}

#[test]
fn usda_extension_is_case_sensitive() {
    assert!(is_usda_extension(Some("usda")));
    assert!(!is_usda_extension(Some("USDA")));
    assert!(!is_usda_extension(Some("usd")));
    assert!(!is_usda_extension(None));
}
