use petgraph::graph::DiGraph;

use cargo_crate_split::analyze::{analyze, analyze_with_budget, CutBudget};
use cargo_crate_split::graph::{EdgeWeight, ModuleGraph, ModuleNode, Occurrence};
use cargo_crate_split::modpath::ModulePath;

fn node(label: &str, loc: usize) -> ModuleNode {
    ModuleNode {
        module: ModulePath {
            segments: vec![label.to_string()],
        },
        loc,
        file_count: 1,
        bin: None,
    }
}

fn occ(n: usize) -> EdgeWeight {
    (0..n)
        .map(|i| Occurrence {
            file: "x.rs".to_string(),
            line: i + 1,
            path: "crate::x".to_string(),
        })
        .collect()
}

/// Heavy forward chain a -> b -> c; one light back-edge c -> a closes the
/// cycle. Removing that single cut yields three standalone SCCs.
fn one_edge_from_three() -> ModuleGraph {
    let mut g: DiGraph<ModuleNode, EdgeWeight> = DiGraph::new();
    let a = g.add_node(node("a", 100));
    let b = g.add_node(node("b", 100));
    let c = g.add_node(node("c", 100));
    g.add_edge(a, b, occ(20));
    g.add_edge(b, c, occ(20));
    g.add_edge(c, a, occ(1));
    ModuleGraph {
        graph: g,
        granularity: 1,
    }
}

#[test]
fn one_cut_yields_three_sccs() {
    let mg = one_edge_from_three();
    let raw = petgraph::algo::tarjan_scc(&mg.graph);
    assert_eq!(raw.len(), 1, "raw graph must be one big SCC, got {raw:?}");
    assert_eq!(raw[0].len(), 3);

    let a = analyze_with_budget(&mg, "demo", None, CutBudget::All);
    assert_eq!(a.proposals.len(), 3, "expected 3 crates, got {:?}", a.proposals);
    assert_eq!(a.summary.cycle_count, 0);
    assert_eq!(a.applied_cut_count, 1, "exactly one cut breaks the cycle");
    assert_eq!(a.applied_refs_cut, 1);
    let mut freed = a.freed_modules.clone();
    freed.sort();
    assert_eq!(freed, vec!["a", "b", "c"]);
}

#[test]
fn frontier_shows_unlock_at_the_one_cut() {
    let mg = one_edge_from_three();
    let a = analyze_with_budget(&mg, "demo", None, CutBudget::All);
    assert_eq!(a.frontier.len(), 2);

    let s0 = &a.frontier[0];
    assert_eq!(s0.cuts_applied, 0);
    assert_eq!(s0.refs_cut, 0);
    assert_eq!(s0.crate_count, 1, "0 cuts: one big crate");
    assert_eq!(s0.largest_loc, 300);
    assert!(s0.freed_modules.is_empty());

    let s1 = &a.frontier[1];
    assert_eq!(s1.cuts_applied, 1);
    assert_eq!(s1.refs_cut, 1);
    assert_eq!(s1.crate_count, 3, "1 cut: three crates");
    assert_eq!(s1.largest_loc, 100, "largest crate drops 300 -> 100 at the unlock");
    assert_eq!(s1.freed_modules, vec!["a", "b", "c"]);
}

#[test]
fn max_cuts_zero_keeps_the_blob() {
    let mg = one_edge_from_three();
    let a = analyze_with_budget(&mg, "demo", None, CutBudget::MaxCuts(0));
    assert_eq!(a.applied_cut_count, 0);
    assert_eq!(a.proposals.len(), 1, "no cuts: still one blob");
    assert_eq!(a.summary.cycle_count, 1, "the cycle remains");
    assert!(a.freed_modules.is_empty());
}

#[test]
fn budget_refs_applies_cheapest_within_limit() {
    let mg = one_edge_from_three();
    let a0 = analyze_with_budget(&mg, "demo", None, CutBudget::Refs(0));
    assert_eq!(a0.applied_cut_count, 0);
    let a1 = analyze_with_budget(&mg, "demo", None, CutBudget::Refs(1));
    assert_eq!(a1.applied_cut_count, 1);
    assert_eq!(a1.proposals.len(), 3);
}

#[test]
fn cut_details_of_the_light_back_edge() {
    let mg = one_edge_from_three();
    let a = analyze(&mg, "demo", None);
    assert_eq!(a.back_edges.len(), 1);
    let be = &a.back_edges[0];
    assert_eq!(be.source_module, "c");
    assert_eq!(be.target_module, "a");
    assert_eq!(be.occurrence_count, 1);
    assert_eq!(be.occurrences.len(), 1);
    assert_eq!(be.occurrences[0].file, "x.rs");
    assert_eq!(be.occurrences[0].line, 1);
    assert_eq!(be.occurrences[0].path, "crate::x");
    assert_eq!(be.scc, 0);
    assert_eq!(a.crate_prefix, "demo");
    assert_eq!(a.package_name, "demo");
    assert_eq!(a.granularity, 1);
}

#[test]
fn layers_follow_dependencies_after_the_cut() {
    // Law: each crate sits above every crate it depends on; layer 0 holds
    // the crates without dependencies.
    let mg = one_edge_from_three();
    let a = analyze(&mg, "demo", None);
    let names: Vec<&str> = a.proposals.iter().map(|p| p.crate_name.as_str()).collect();
    assert_eq!(names, vec!["demo-c", "demo-b", "demo-a"]);
    assert_eq!(a.proposals[0].layer, 0);
    assert!(a.proposals[0].depends_on.is_empty());
    assert_eq!(a.proposals[1].layer, 1);
    assert_eq!(a.proposals[1].depends_on, vec!["demo-c"]);
    assert_eq!(a.proposals[2].layer, 2);
    assert_eq!(a.proposals[2].depends_on, vec!["demo-b"]);
    assert_eq!(a.layers.len(), 3);
    assert_eq!(a.layers[0].level, 0);
    assert_eq!(a.layers[0].crates, vec!["demo-c"]);
    assert_eq!(a.layers[2].crates, vec!["demo-a"]);
    assert_eq!(a.summary.largest_crate_loc, 100);
    assert_eq!(a.summary.module_count, 3);
    assert_eq!(a.summary.recommended_cut_count, 1);
}

#[test]
fn acyclic_graph_needs_no_cuts() {
    // Law: no recommended cut means every module is already its own crate.
    let mut g: DiGraph<ModuleNode, EdgeWeight> = DiGraph::new();
    let a = g.add_node(node("app", 10));
    let b = g.add_node(node("db", 20));
    let c = g.add_node(node("models", 30));
    g.add_edge(a, b, occ(2));
    g.add_edge(b, c, occ(3));
    g.add_edge(a, c, occ(1));
    let mg = ModuleGraph { graph: g, granularity: 1 };
    let an = analyze(&mg, "my_app", None);
    assert!(an.back_edges.is_empty());
    assert_eq!(an.summary.cycle_count, 0);
    assert_eq!(an.proposals.len(), 3);
    assert_eq!(an.crate_prefix, "my-app");
    assert_eq!(an.frontier.len(), 1);
    assert_eq!(an.frontier[0].crate_count, 3);
    assert!(an.freed_modules.is_empty());
    let models = an.proposals.iter().find(|p| p.crate_name == "my-app-models").unwrap();
    assert_eq!(models.layer, 0);
    let app = an.proposals.iter().find(|p| p.crate_name == "my-app-app").unwrap();
    assert_eq!(app.layer, 2);
    assert_eq!(app.depends_on, vec!["my-app-db", "my-app-models"]);
}

#[test]
fn pinned_order_cuts_the_upward_edge() {
    // With `b` pinned below `a`, the heavy a -> b edge points downward and the
    // light b -> a edge is the violation to cut.
    let mut g: DiGraph<ModuleNode, EdgeWeight> = DiGraph::new();
    let a = g.add_node(node("a", 1));
    let b = g.add_node(node("b", 1));
    g.add_edge(a, b, occ(5));
    g.add_edge(b, a, occ(1));
    let mg = ModuleGraph { graph: g, granularity: 1 };
    let order = vec!["a".to_string(), "b".to_string()];
    let an = analyze(&mg, "p", Some(&order));
    assert_eq!(an.back_edges.len(), 1);
    assert_eq!(an.back_edges[0].source_module, "a");
    assert_eq!(an.back_edges[0].target_module, "b");
    let unpinned = analyze(&mg, "p", None);
    assert_eq!(unpinned.back_edges.len(), 1);
    assert_eq!(unpinned.back_edges[0].source_module, "b");
}

#[test]
fn cuts_are_ranked_cheapest_first() {
    // Two separate 2-cycles: the cheaper cut comes first.
    let mut g: DiGraph<ModuleNode, EdgeWeight> = DiGraph::new();
    let a = g.add_node(node("a", 1));
    let b = g.add_node(node("b", 1));
    let c = g.add_node(node("c", 1));
    let d = g.add_node(node("d", 1));
    g.add_edge(a, b, occ(9));
    g.add_edge(b, a, occ(4));
    g.add_edge(c, d, occ(9));
    g.add_edge(d, c, occ(2));
    let mg = ModuleGraph { graph: g, granularity: 1 };
    let an = analyze_with_budget(&mg, "x", None, CutBudget::MaxCuts(1));
    assert_eq!(an.back_edges.len(), 2);
    assert_eq!(an.back_edges[0].occurrence_count, 2);
    assert_eq!(an.back_edges[1].occurrence_count, 4);
    assert_eq!(an.applied_cut_count, 1);
    assert_eq!(an.applied_refs_cut, 2);
    assert_eq!(an.summary.cycle_count, 1);
    assert_eq!(an.proposals.len(), 3);
    let refs = analyze_with_budget(&mg, "x", None, CutBudget::Refs(5));
    assert_eq!(refs.applied_cut_count, 1);
    assert!(refs.applied_refs_cut <= 5);
    let last = analyze(&mg, "x", None);
    assert_eq!(last.frontier.len(), 3);
    assert_eq!(last.frontier[2].crate_count, 4);
    assert_eq!(last.frontier[2].refs_cut, 6);
}
