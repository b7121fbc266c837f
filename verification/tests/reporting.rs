use yarn_lock_analyzer::errors::YarnError;
use yarn_lock_analyzer::graph::DepGraph;
use yarn_lock_analyzer::report::full_summary;
use yarn_lock_analyzer::report::report;
use yarn_lock_analyzer::report::summary_package_tree;

fn keywords(ks: &[&str]) -> Vec<String> {
    ks.iter().map(|s| s.to_string()).collect()
}

#[test]
fn keyword_chain_is_printed_with_tab_indentation() {
    // a -> b -> lodash@^4.0.0, searched for "lodash"
    let mut g = DepGraph::new();
    g.add_dependency("a", "b");
    g.add_dependency("b", "lodash@^4.0.0");
    let mut out: Vec<String> = Vec::new();
    let r = summary_package_tree(&g, &keywords(&["lodash"]), &mut out);
    assert!(r.is_ok());
    assert_eq!(
        out,
        vec![
            "a".to_string(),
            "\tb".to_string(),
            "\t\tlodash@^4.0.0".to_string(),
            "b".to_string(),
            "\tlodash@^4.0.0".to_string(),
        ]
    );
}

#[test]
fn cyclic_graph_terminates_without_output_when_nothing_matches() {
    let mut g = DepGraph::new();
    g.add_dependency("a", "b");
    g.add_dependency("b", "a");
    let mut out: Vec<String> = Vec::new();
    let r = summary_package_tree(&g, &keywords(&["lodash"]), &mut out);
    assert!(r.is_ok());
    assert!(out.is_empty());
}

#[test]
fn cyclic_graph_chains_do_not_repeat_an_ancestor() {
    let mut g = DepGraph::new();
    g.add_dependency("a", "b");
    g.add_dependency("b", "a");
    let mut out: Vec<String> = Vec::new();
    let r = summary_package_tree(&g, &keywords(&["b"]), &mut out);
    assert!(r.is_ok());
    // root a: its dependency b matches at once; root b: descends through a,
    // whose dependency b matches; the cycle guard stops each branch there
    assert_eq!(
        out,
        vec![
            "a".to_string(),
            "\tb".to_string(),
            "b".to_string(),
            "\ta".to_string(),
            "\t\tb".to_string(),
        ]
    );
}

fn chain_graph(n: usize) -> DepGraph {
    // n nodes named x001..x(n), linked in a line by n-1 edges
    let mut g = DepGraph::new();
    for i in 1..n {
        g.add_dependency(&format!("x{:03}", i), &format!("x{:03}", i + 1));
    }
    g
}

#[test]
fn chain_of_fifty_one_nodes_is_too_deep() {
    let g = chain_graph(51);
    let mut out: Vec<String> = Vec::new();
    let r = summary_package_tree(&g, &keywords(&["no-such-keyword"]), &mut out);
    match r {
        Err(YarnError::TooDeep) => {}
        _ => panic!("expected TooDeep"),
    }
    assert_eq!(out, vec![format!("{}... (too deep)", "\t".repeat(50))]);
}

#[test]
fn chain_of_fifty_nodes_is_not_too_deep() {
    let g = chain_graph(50);
    let mut out: Vec<String> = Vec::new();
    let r = summary_package_tree(&g, &keywords(&["no-such-keyword"]), &mut out);
    assert!(r.is_ok());
    assert!(out.is_empty());
}

#[test]
fn full_summary_lists_keys_and_values_in_lexicographic_order() {
    let mut g = DepGraph::new();
    g.add_dependency("zebra@1", "b@2");
    g.add_dependency("zebra@1", "a@1");
    g.upsert("alpha@1");
    let mut out: Vec<String> = Vec::new();
    full_summary(&g, &mut out);
    assert_eq!(
        out,
        vec![
            "alpha@1:".to_string(),
            "zebra@1:".to_string(),
            "    a@1".to_string(),
            "    b@2".to_string(),
        ]
    );
}

#[test]
fn report_dispatches_on_the_keyword_list() {
    let mut g = DepGraph::new();
    g.add_dependency("a", "b@1");
    let mut out: Vec<String> = Vec::new();
    assert!(report(&g, &Vec::new(), &mut out).is_ok());
    assert_eq!(out, vec!["a:".to_string(), "    b@1".to_string()]);
    let mut out2: Vec<String> = Vec::new();
    assert!(report(&g, &keywords(&["b@1"]), &mut out2).is_ok());
    assert_eq!(out2, vec!["a".to_string(), "\tb@1".to_string()]);
}

#[test]
fn missing_key_is_a_dead_end_not_an_error() {
    let mut g = DepGraph::new();
    g.add_dependency("a", "ghost@1");
    let mut out: Vec<String> = Vec::new();
    let r = summary_package_tree(&g, &keywords(&["nothing"]), &mut out);
    assert!(r.is_ok());
    assert!(out.is_empty());
}

#[test]
fn matching_branch_stops_descending_but_siblings_continue() {
    let mut g = DepGraph::new();
    g.add_dependency("root@1", "mid@1");
    g.add_dependency("mid@1", "deep-match@1");
    g.add_dependency("root@1", "other-match@1");
    let mut out: Vec<String> = Vec::new();
    let r = summary_package_tree(&g, &keywords(&["match"]), &mut out);
    assert!(r.is_ok());
    // roots in sorted key order: mid@1 then root@1; under root@1 the
    // dependencies come sorted, mid@1's subtree matches at deep-match@1 and
    // stops there, and the sibling other-match@1 still matches
    assert_eq!(
        out,
        vec![
            "mid@1".to_string(),
            "\tdeep-match@1".to_string(),
            "root@1".to_string(),
            "\tmid@1".to_string(),
            "\t\tdeep-match@1".to_string(),
            "root@1".to_string(),
            "\tother-match@1".to_string(),
        ]
    );
}

#[test]
fn empty_keyword_matches_every_node() {
    let mut g = DepGraph::new();
    g.add_dependency("a", "b");
    let mut out: Vec<String> = Vec::new();
    let r = summary_package_tree(&g, &keywords(&[""]), &mut out);
    assert!(r.is_ok());
    assert_eq!(out, vec!["a".to_string(), "\tb".to_string()]);
}
