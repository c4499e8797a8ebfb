use cargo_crate_split::analyze::{analyze, crate_name_for, crate_prefix, totals_within_limits};
use cargo_crate_split::discover::{count_lines, discovered_file, package_name_for, package_name_from_manifest, CrateInfo, Discovery};
use cargo_crate_split::graph::{build_graph, node_key, target_module_path, LabelEdge, ModuleGraph};
use cargo_crate_split::modpath::{module_path_for_file, ModuleKind, ModulePath};
use cargo_crate_split::parse::{collect_references, PathRef, SyntaxEvent, UseNode};
use cargo_crate_split::source::references_in_text;

fn comps(parts: &[&str]) -> Vec<String> {
    parts.iter().map(|s| s.to_string()).collect()
}

fn mp(parts: &[&str]) -> ModulePath {
    ModulePath { segments: comps(parts) }
}

#[test]
fn prefix_is_sanitized_and_collapsed() {
    assert_eq!(crate_prefix("My__Cool.App-"), "my-cool-app");
    assert_eq!(crate_prefix("--x--y--"), "x-y");
    assert_eq!(crate_prefix(""), "");
}

#[test]
fn crate_name_uses_shortest_module() {
    assert_eq!(crate_name_for("demo", &comps(&["queries", "ai", "db"])), "demo-ai");
    assert_eq!(crate_name_for("demo", &comps(&["zz", "ab"])), "demo-ab");
    assert_eq!(crate_name_for("", &comps(&["a::b_c"])), "a--b-c");
    assert_eq!(crate_name_for("p", &[]), "p-crate");
}

#[test]
fn module_paths_of_files() {
    let src = comps(&["/", "proj", "src"]);
    let f = |p: &[&str]| module_path_for_file(&src, &comps(p)).map(|m| m.segments);
    assert_eq!(f(&["/", "proj", "src", "lib.rs"]), Some(vec![]));
    assert_eq!(f(&["/", "proj", "src", "ai", "mod.rs"]), Some(comps(&["ai"])));
    assert_eq!(f(&["/", "proj", "src", "ai", "coach.rs"]), Some(comps(&["ai", "coach"])));
    assert_eq!(f(&["/", "proj", "src", "notes.txt"]), None);
    assert_eq!(f(&["/", "other", "x.rs"]), None);
}

#[test]
fn module_path_helpers() {
    let m = mp(&["a", "b", "c"]);
    assert_eq!(m.truncate(2).segments, comps(&["a", "b"]));
    assert_eq!(m.truncate(0).segments, comps(&["a"]));
    assert_eq!(m.label(), "a::b::c");
    assert_eq!(ModulePath::crate_root().label(), "crate");
    assert_eq!(ModulePath::crate_root().child("x").segments, comps(&["x"]));
}

#[test]
fn discovered_files_are_classified() {
    let src = comps(&["r", "src"]);
    let lib = discovered_file(&src, &comps(&["r", "src", "db.rs"]), "r/src/db.rs", 7).unwrap();
    assert_eq!(lib.module.segments, comps(&["db"]));
    assert_eq!(lib.kind, ModuleKind::Lib);
    assert_eq!(lib.file, "r/src/db.rs");
    assert_eq!(lib.loc, 7);
    let bin = discovered_file(&src, &comps(&["r", "src", "bin", "tool.rs"]), "t", 1).unwrap();
    assert_eq!(bin.kind, ModuleKind::Bin("tool".to_string()));
    assert_eq!(bin.module.segments, comps(&["tool"]));
    let nested = discovered_file(&src, &comps(&["r", "src", "bin", "srv", "main.rs"]), "t", 1).unwrap();
    assert_eq!(nested.kind, ModuleKind::Bin("srv".to_string()));
    assert_eq!(nested.module.segments, comps(&["srv", "main"]));
    assert!(discovered_file(&src, &comps(&["r", "README.md"]), "x", 1).is_none());
}

#[test]
fn lines_are_counted_like_str_lines() {
    assert_eq!(count_lines(""), 0);
    assert_eq!(count_lines("a"), 1);
    assert_eq!(count_lines("a\n"), 1);
    assert_eq!(count_lines("a\nb\n\nc"), 4);
    assert_eq!(count_lines("a\r\nb\r\n"), 2);
}

#[test]
fn package_name_is_read_from_the_package_table() {
    let toml = "[workspace]\nname = \"nope\"\n\n[package]\nversion = \"1\"\nname = \"my-crate\"\n";
    assert_eq!(package_name_from_manifest(toml), Some("my-crate".to_string()));
    assert_eq!(package_name_from_manifest("[package]\r\nname='quoted'\r\n"), Some("quoted".to_string()));
    assert_eq!(package_name_from_manifest("[package]\nname_x = \"a\"\n"), None);
    assert_eq!(package_name_from_manifest("[package]\nname = \"\"\n"), None);
    assert_eq!(package_name_from_manifest("[dependencies]\nname = \"dep\"\n"), None);
    assert_eq!(package_name_for(Some("[package]\nname = \"z\""), Some("dir")), "z");
    assert_eq!(package_name_for(Some("nothing"), Some("dir")), "dir");
    assert_eq!(package_name_for(None, None), "crate");
}

#[test]
fn node_keys_and_targets() {
    assert_eq!(node_key(&mp(&["a", "b"]), &ModuleKind::Lib, 1).segments, comps(&["a"]));
    let bin = node_key(&mp(&["x", "y"]), &ModuleKind::Bin("cli".to_string()), 2);
    assert_eq!(bin.segments, vec!["\u{1}bin:cli".to_string(), "x".to_string()]);
    assert_eq!(target_module_path("ai", "crate::ai::coach::Run").segments, comps(&["ai", "coach", "Run"]));
    assert_eq!(target_module_path("ai", "::crate::ai").segments, comps(&["ai"]));
    assert_eq!(target_module_path("ai", "crate").segments, comps(&["ai"]));
}

#[test]
fn references_follow_inline_modules_and_use_groups() {
    let tree = UseNode::Path(
        "crate".to_string(),
        Box::new(UseNode::Group(vec![
            UseNode::Path("db".to_string(), Box::new(UseNode::Name("Conn".to_string(), 3))),
            UseNode::Rename("ai".to_string(), 4),
            UseNode::Glob(5),
        ])),
    );
    let events = vec![
        SyntaxEvent::Use(tree),
        SyntaxEvent::EnterMod("inner".to_string(), true),
        SyntaxEvent::EnterMod("outlined".to_string(), false),
        SyntaxEvent::ExitMod(false),
        SyntaxEvent::Path(PathRef { segments: comps(&["crate", "models", "User"]), leading_colon: false, line: 9 }),
        SyntaxEvent::ExitMod(true),
        SyntaxEvent::Path(PathRef { segments: comps(&["std", "fmt"]), leading_colon: false, line: 10 }),
        SyntaxEvent::Path(PathRef { segments: comps(&["crate", "x"]), leading_colon: true, line: 11 }),
    ];
    let refs = collect_references(&events, &mp(&["app"]), "src/app.rs");
    let got: Vec<(Vec<String>, String, usize, String)> = refs
        .iter()
        .map(|r| (r.source.segments.clone(), r.target_top.clone(), r.line, r.path.clone()))
        .collect();
    assert_eq!(
        got,
        vec![
            (comps(&["app"]), "db".to_string(), 3, "crate::db::Conn".to_string()),
            (comps(&["app"]), "ai".to_string(), 4, "crate::ai".to_string()),
            (comps(&["app"]), "*".to_string(), 5, "crate::*".to_string()),
            (comps(&["app", "inner"]), "models".to_string(), 9, "crate::models::User".to_string()),
            (comps(&["app"]), "x".to_string(), 11, "::crate::x".to_string()),
        ]
    );
    assert!(refs.iter().all(|r| r.file == "src/app.rs"));
}

fn file(module: &[&str], loc: usize) -> cargo_crate_split::modpath::DiscoveredFile {
    cargo_crate_split::modpath::DiscoveredFile {
        file: format!("{}.rs", module.join("/")),
        module: mp(module),
        kind: ModuleKind::Lib,
        loc,
    }
}

fn reference(source: &[&str], path: &str, line: usize) -> cargo_crate_split::parse::Reference {
    let segs: Vec<&str> = path.split("::").collect();
    cargo_crate_split::parse::Reference {
        source: mp(source),
        target_top: segs[1].to_string(),
        file: "f.rs".to_string(),
        line,
        path: path.to_string(),
    }
}

fn sample_graph() -> ModuleGraph {
    let disc = Discovery {
        info: CrateInfo { package_name: "demo".to_string() },
        files: vec![file(&["a"], 10), file(&["a", "x"], 5), file(&["b"], 7)],
    };
    let refs = vec![
        vec![reference(&["a"], "crate::b::B", 1), reference(&["a"], "crate::a::x::f", 2)],
        vec![reference(&["a", "x"], "crate::b::C", 3), reference(&["a", "x"], "crate::zzz::Q", 4)],
        vec![reference(&["b"], "crate::a::A", 5)],
    ];
    build_graph(&disc, 0, &refs)
}

#[test]
fn graph_collapses_occurrences_per_module_pair() {
    let mg = sample_graph();
    assert_eq!(mg.granularity, 1);
    let g = &mg.graph;
    assert_eq!(g.node_count(), 2);
    let na = &g.raw_nodes()[0].weight;
    assert_eq!(na.label(), "a");
    assert_eq!(na.loc, 15);
    assert_eq!(na.file_count, 2);
    assert_eq!(g.raw_nodes()[1].weight.label(), "b");
    assert_eq!(g.edge_count(), 2);
    let e0 = &g.raw_edges()[0];
    assert_eq!((e0.source().index(), e0.target().index()), (0, 1));
    let lines: Vec<usize> = e0.weight.iter().map(|o| o.line).collect();
    assert_eq!(lines, vec![1, 3]);
    let e1 = &g.raw_edges()[1];
    assert_eq!((e1.source().index(), e1.target().index()), (1, 0));
}

#[test]
fn sccs_without_removes_labelled_edges() {
    let mg = sample_graph();
    assert_eq!(mg.sccs_without(&[]).len(), 1);
    let cut = LabelEdge { source: "b".to_string(), target: "a".to_string() };
    assert_eq!(mg.sccs_without(&[cut]).len(), 2);
    let an = analyze(&mg, "demo", None);
    assert_eq!(an.back_edges.len(), 1);
    assert_eq!(an.back_edges[0].source_module, "b");
    assert_eq!(an.back_edges[0].classification.distinct_symbols, vec!["A"]);
}

#[test]
fn pinned_order_cuts_the_upward_dependency() {
    let mg = sample_graph();
    let foundation_b = vec!["b".to_string(), "a".to_string()];
    let an = analyze(&mg, "demo", Some(foundation_b.as_slice()));
    assert_eq!(an.back_edges.len(), 1);
    assert_eq!(an.back_edges[0].source_module, "b");
    assert_eq!(an.back_edges[0].target_module, "a");

    let foundation_a = vec!["a".to_string(), "b".to_string()];
    let an = analyze(&mg, "demo", Some(foundation_a.as_slice()));
    assert_eq!(an.back_edges.len(), 1);
    assert_eq!(an.back_edges[0].source_module, "a");
    assert_eq!(an.back_edges[0].target_module, "b");
    assert_eq!(an.back_edges[0].occurrence_count, 2);
}

#[test]
fn pinned_module_sits_below_unnamed_ones() {
    let mg = sample_graph();
    let only_a = vec!["a".to_string()];
    let an = analyze(&mg, "demo", Some(only_a.as_slice()));
    assert_eq!(an.back_edges.len(), 1);
    assert_eq!(an.back_edges[0].source_module, "a");
    assert_eq!(an.back_edges[0].target_module, "b");
    assert_eq!(an.summary.cycle_count, 0);
}

#[test]
fn small_graph_totals_fit() {
    let mg = sample_graph();
    assert!(totals_within_limits(&mg));
}

#[test]
fn references_are_read_from_source_text() {
    let text = "use crate::db::{Conn, pool::*};\nmod inner {\n    fn f() { crate::models::User::new(); }\n}\nmod outlined;\n";
    let refs = references_in_text(text, &mp(&["app"]), "src/app.rs").unwrap();
    let got: Vec<(Vec<String>, String, usize, String)> = refs
        .iter()
        .map(|r| (r.source.segments.clone(), r.target_top.clone(), r.line, r.path.clone()))
        .collect();
    assert_eq!(
        got,
        vec![
            (comps(&["app"]), "db".to_string(), 1, "crate::db::Conn".to_string()),
            (comps(&["app"]), "db".to_string(), 1, "crate::db::pool::*".to_string()),
            (comps(&["app", "inner"]), "models".to_string(), 3, "crate::models::User::new".to_string()),
        ]
    );
    assert!(references_in_text("fn (", &mp(&["app"]), "src/app.rs").is_none());
}

#[test]
fn check_lists_each_cut() {
    let mg = sample_graph();
    let an = analyze(&mg, "demo", None);
    assert_eq!(
        cargo_crate_split::report::check::violation_lines(&an),
        vec!["VIOLATION b -> a (1 reference(s))".to_string()]
    );
}
