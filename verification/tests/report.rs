use petgraph::graph::DiGraph;

use cargo_crate_split::analyze::{analyze, analyze_with_budget, Analysis, CutBudget};
use cargo_crate_split::graph::{EdgeWeight, ModuleGraph, ModuleNode, Occurrence};
use cargo_crate_split::modpath::ModulePath;
use cargo_crate_split::report::{mermaid, text};
use cargo_crate_split::scaffold::scaffold_files;

fn node(label: &str, loc: usize) -> ModuleNode {
    ModuleNode {
        module: ModulePath { segments: vec![label.to_string()] },
        loc,
        file_count: 1,
        bin: None,
    }
}

fn occ(n: usize, path: &str) -> EdgeWeight {
    (0..n)
        .map(|i| Occurrence { file: "src/x.rs".to_string(), line: i + 1, path: path.to_string() })
        .collect()
}

fn two_cycle() -> ModuleGraph {
    let mut g: DiGraph<ModuleNode, EdgeWeight> = DiGraph::new();
    let a = g.add_node(node("app", 40));
    let b = g.add_node(node("db", 60));
    g.add_edge(a, b, occ(3, "crate::db::Conn"));
    g.add_edge(b, a, occ(1, "crate::app::Config"));
    ModuleGraph { graph: g, granularity: 1 }
}

fn analysis() -> Analysis {
    analyze(&two_cycle(), "shop", None)
}

#[test]
fn mermaid_lists_nodes_then_edges() {
    let m = mermaid::render(&analysis());
    assert_eq!(
        m,
        "graph TD\n    n0[\"shop-db<br/>60 LOC\"]\n    n1[\"shop-app<br/>40 LOC\"]\n    n1 --> n0\n"
    );
}

#[test]
fn text_report_sections() {
    let a = analysis();
    let t = text::render(&a, false);
    let expected_head = "cargo-crate-split — analysis of `shop` (granularity 1)\n".to_string()
        + &"=".repeat(64)
        + "\n\nPROPOSED SPLIT — achievable after 1 cut(s) (1 reference(s))\n";
    assert!(t.starts_with(&expected_head), "{t}");
    assert!(t.contains("\n  [layer 0 (foundation / leaf crates)]\n    • shop-db ★  —  60 LOC, 1 file(s)\n        modules: db\n"));
    assert!(t.contains("\n  [layer 1]\n    • shop-app ★  —  40 LOC, 1 file(s)\n        modules: app\n        depends on: shop-db\n"));
    assert!(t.contains("CRATE DEPENDENCY DAG\n"));
    assert!(t.contains("  shop-app -> shop-db\n"));
    assert!(t.contains("  1 recommended cut(s), cheapest first (1 applied for the proposal above):\n"));
    assert!(t.contains("  ✂ [applied] cut  db -> app  (1 occurrence(s)) [SCC #0]\n        src/x.rs:1  crate::app::Config\n"));
    assert!(t.contains("   cuts   refs cut  #crates   largest LOC   modules newly freed\n"));
    assert!(t.contains("      0          0        1           100   —\n"));
    assert!(t.contains("      1          1        2            60   app, db\n"));
    assert!(t.contains("  2 module(s) -> 2 proposed crate(s) (after 1 of 1 recommended cuts)\n"));
    assert!(t.contains("  cycles remaining (after applied cuts): 0\n"));
    assert!(t.ends_with("  modules unlocked into their own crate: app, db\n"));
    assert!(!t.contains("MERMAID"));
    let with = text::render(&a, true);
    assert!(with.ends_with(&format!("MERMAID\n{}\n{}", "-".repeat(64), mermaid::render(&a))));
}

#[test]
fn text_report_budget_limited_and_no_cuts() {
    let limited = analyze_with_budget(&two_cycle(), "shop", None, CutBudget::MaxCuts(0));
    let t = text::render(&limited, false);
    assert!(t.contains("  (budget-limited: 0 of 1 recommended cuts applied)\n"));
    assert!(t.contains("(CYCLE REMAINS)"));
    assert!(t.contains("  ✂ [skipped] cut  db -> app"));
    assert!(t.contains("  (no inter-crate dependencies — all crates independent)\n"));

    let mut g: DiGraph<ModuleNode, EdgeWeight> = DiGraph::new();
    g.add_node(node("solo", 5));
    let a = analyze(&ModuleGraph { graph: g, granularity: 1 }, "one", None);
    let t2 = text::render(&a, false);
    assert!(t2.contains("  No multi-module cycles. The raw graph already splits as a DAG.\n"));
    assert!(t2.contains("    • one-solo  —  5 LOC, 1 file(s)\n"));
}

#[test]
fn scaffold_files_describe_the_workspace() {
    let a = analysis();
    let files = scaffold_files(&a);
    assert_eq!(files.len(), 5);
    assert_eq!(files[0].path, vec!["Cargo.toml"]);
    assert_eq!(
        files[0].content,
        "[workspace]\nresolver = \"2\"\nmembers = [\n    \"crates/shop-app\",\n    \"crates/shop-db\",\n]\n"
    );
    assert_eq!(files[1].path, vec!["crates", "shop-db", "Cargo.toml"]);
    assert_eq!(
        files[1].content,
        "[package]\nname = \"shop-db\"\nversion = \"0.1.0\"\nedition = \"2021\"\n\n[dependencies]\n"
    );
    assert_eq!(files[2].path, vec!["crates", "shop-db", "src", "lib.rs"]);
    assert_eq!(
        files[2].content,
        "// crate `shop-db` — proposed by cargo-crate-split\n// Move the following modules from the original crate here:\n//   - db\n\n"
    );
    assert_eq!(
        files[3].content,
        "[package]\nname = \"shop-app\"\nversion = \"0.1.0\"\nedition = \"2021\"\n\n[dependencies]\nshop-db = { path = \"../shop-db\" }\n"
    );
}
