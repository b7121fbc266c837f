use yarn_lock_analyzer::graph::DepGraph;
use yarn_lock_analyzer::parser::parse_lockfile;
use yarn_lock_analyzer::report::full_summary;

fn lines(ls: &[&str]) -> Vec<String> {
    ls.iter().map(|s| s.to_string()).collect()
}

#[test]
fn upsert_is_idempotent_and_keeps_content() {
    let mut g = DepGraph::new();
    g.upsert("a");
    g.add_dependency("a", "b@1");
    g.upsert("a");
    assert_eq!(g.len(), 1);
    assert_eq!(g.get("a"), Some(&vec!["b@1".to_string()]));
}

#[test]
fn add_dependency_creates_the_key_when_absent() {
    let mut g = DepGraph::new();
    g.add_dependency("fresh", "v@1");
    assert_eq!(g.len(), 1);
    assert_eq!(g.get("fresh"), Some(&vec!["v@1".to_string()]));
}

#[test]
fn keys_and_values_come_out_sorted_whatever_the_insertion_order() {
    let mut g = DepGraph::new();
    g.add_dependency("c", "z@1");
    g.add_dependency("c", "a@1");
    g.add_dependency("a", "m@1");
    g.upsert("b");
    assert_eq!(g.len(), 3);
    assert_eq!(g.key_at(0), "a");
    assert_eq!(g.key_at(1), "b");
    assert_eq!(g.key_at(2), "c");
    assert_eq!(g.deps_at(2), &vec!["a@1".to_string(), "z@1".to_string()]);
}

#[test]
fn get_distinguishes_missing_keys() {
    let mut g = DepGraph::new();
    g.upsert("present");
    assert!(g.get("present").is_some());
    assert!(g.get("absent").is_none());
    assert!(g.get("presen").is_none());
    assert!(g.get("presentt").is_none());
}

#[test]
fn reparsing_the_same_content_yields_identical_graphs() {
    let content = lines(&[
        "b@2, b@3:",
        "  dependencies:",
        "    \"x\" \"1\"",
        "",
        "a@1:",
        "  dependencies:",
        "    \"y\" \"2\"",
        "    \"x\" \"1\"",
    ]);
    let g1 = parse_lockfile(&content).expect("parse must succeed");
    let g2 = parse_lockfile(&content).expect("parse must succeed");
    assert_eq!(g1.len(), g2.len());
    for i in 0..g1.len() {
        assert_eq!(g1.key_at(i), g2.key_at(i));
        assert_eq!(g1.deps_at(i), g2.deps_at(i));
    }
    let mut s1: Vec<String> = Vec::new();
    let mut s2: Vec<String> = Vec::new();
    full_summary(&g1, &mut s1);
    full_summary(&g2, &mut s2);
    assert_eq!(s1, s2);
}

#[test]
fn summary_order_is_deterministic_and_lexicographic() {
    let content = lines(&[
        "b@2:",
        "  dependencies:",
        "    \"x\" \"1\"",
        "",
        "a@1:",
    ]);
    let g = parse_lockfile(&content).expect("parse must succeed");
    let mut out: Vec<String> = Vec::new();
    full_summary(&g, &mut out);
    assert_eq!(
        out,
        vec!["a@1:".to_string(), "b@2:".to_string(), "    x@1".to_string()]
    );
}
