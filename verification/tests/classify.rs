use cargo_crate_split::analyze::OccurrenceOut;
use cargo_crate_split::classify::{classify, is_type_like, leaf_symbol, symbol_list, CutKind, Difficulty};

fn occ(file: &str, path: &str) -> OccurrenceOut {
    OccurrenceOut {
        file: file.to_string(),
        line: 1,
        path: path.to_string(),
    }
}

#[test]
fn type_only_single_file_is_trivial_move() {
    let occs = vec![
        occ("a.rs", "crate::ai::critic::CriticOutcome"),
        occ("a.rs", "crate::ai::critic::Verdict"),
    ];
    let c = classify("queries", "ai", &occs);
    assert_eq!(c.kind, CutKind::MoveType);
    assert_eq!(c.difficulty, Difficulty::Trivial);
    assert_eq!(c.distinct_files, 1);
    assert_eq!(c.distinct_symbols, vec!["CriticOutcome", "Verdict"]);
    assert!(c.suggestion.contains("foundation crate"));
}

#[test]
fn lowercase_leaf_is_function_call_inversion() {
    let occs = vec![occ("a.rs", "crate::ai::assistant::run")];
    let c = classify("queries", "ai", &occs);
    assert_eq!(c.kind, CutKind::FunctionCall);
    assert!(c.suggestion.contains("Invert"));
}

#[test]
fn screaming_snake_const_is_value_not_type() {
    assert!(!is_type_like("MAX_LEN"));
    assert!(is_type_like("CriticOutcome"));
    assert!(!is_type_like("run_query"));
}

#[test]
fn glob_is_hard() {
    let occs = vec![occ("a.rs", "crate::ai::*")];
    let c = classify("queries", "ai", &occs);
    assert_eq!(c.kind, CutKind::Glob);
    assert_eq!(c.difficulty, Difficulty::Hard);
}

#[test]
fn many_scattered_types_escalate_past_trivial() {
    let occs: Vec<OccurrenceOut> = (0..6)
        .map(|i| occ(&format!("f{i}.rs"), "crate::ai::critic::CriticOutcome"))
        .collect();
    let c = classify("queries", "ai", &occs);
    assert_eq!(c.kind, CutKind::MoveType);
    assert_ne!(c.difficulty, Difficulty::Trivial, "6 files is not trivial");
}

#[test]
fn labels_of_kinds_and_difficulties() {
    assert_eq!(CutKind::MoveType.label(), "move-type-to-foundation");
    assert_eq!(CutKind::FunctionCall.label(), "dependency-inversion");
    assert_eq!(CutKind::Glob.label(), "inspect-glob-reexport");
    assert_eq!(CutKind::Mixed.label(), "extract-shared");
    assert_eq!(Difficulty::Trivial.label(), "trivial");
    assert_eq!(Difficulty::Moderate.label(), "moderate");
    assert_eq!(Difficulty::Hard.label(), "hard");
}

#[test]
fn leaf_symbol_takes_last_segment() {
    assert_eq!(leaf_symbol("crate::ai::coach::CriticOutcome"), "CriticOutcome");
    assert_eq!(leaf_symbol("Plain"), "Plain");
    assert_eq!(leaf_symbol("crate::a:: spaced "), "spaced");
}

#[test]
fn symbol_list_truncates_with_tail() {
    let syms: Vec<String> = ["A", "B", "C", "D", "E"].iter().map(|s| s.to_string()).collect();
    assert_eq!(symbol_list(&syms, 3), "`A`, `B`, `C` (+2 more)");
    assert_eq!(symbol_list(&syms, 5), "`A`, `B`, `C`, `D`, `E`");
    assert_eq!(symbol_list(&Vec::new(), 3), "the referenced item(s)");
}

#[test]
fn mixed_coupling_suggestion_text() {
    let occs = vec![
        occ("a.rs", "crate::ai::Model"),
        occ("b.rs", "crate::ai::run"),
    ];
    let c = classify("queries", "ai", &occs);
    assert_eq!(c.kind, CutKind::Mixed);
    assert_eq!(c.difficulty, Difficulty::Moderate);
    assert_eq!(c.distinct_files, 2);
    assert_eq!(
        c.suggestion,
        "Mixed coupling — types `Model` and values `run`. Move the shared types into a foundation crate; for the remaining calls, invert via a trait in the lower crate."
    );
}

#[test]
fn move_type_suggestion_text_exact() {
    let c = classify("queries", "ai", &[occ("a.rs", "crate::ai::Verdict")]);
    assert_eq!(
        c.suggestion,
        "Move `Verdict` out of `ai` into a shared foundation crate (e.g. a `*-types` crate that both `queries` and `ai` depend on). The upward edge then disappears — both sides import the type from below."
    );
}

#[test]
fn glob_suggestion_text_exact() {
    let c = classify("queries", "ai", &[occ("a.rs", "crate::ai::*")]);
    assert_eq!(
        c.suggestion,
        "`queries` glob-imports from `ai` (`use crate::ai::*`). Replace the glob with explicit imports first to see the true coupling, then move shared types down or invert the call edge as appropriate."
    );
}

#[test]
fn function_calls_in_many_files_are_hard() {
    let occs: Vec<OccurrenceOut> = (0..5)
        .map(|i| occ(&format!("f{i}.rs"), &format!("crate::ai::run{i}")))
        .collect();
    let c = classify("queries", "ai", &occs);
    assert_eq!(c.kind, CutKind::FunctionCall);
    // 5 files + 5 symbols + 2 = 12 >= 8
    assert_eq!(c.difficulty, Difficulty::Hard);
    assert!(c.suggestion.contains("`run0`, `run1`, `run2`, `run3` (+1 more)"));
}

#[test]
fn classification_depends_on_files_and_symbols_only() {
    let a = vec![
        occ("src/db.rs", "crate::models::User"),
        occ("src/db.rs", "crate::models::Post"),
        occ("src/api.rs", "crate::models::User"),
    ];
    let b = vec![
        occ("src/api.rs", "crate::models::Post"),
        occ("src/db.rs", "crate::models::User"),
    ];
    let ca = classify("db", "models", &a);
    let cb = classify("db", "models", &b);
    assert_eq!(ca.kind, cb.kind);
    assert_eq!(ca.difficulty, cb.difficulty);
    assert_eq!(ca.distinct_files, cb.distinct_files);
    assert_eq!(ca.distinct_symbols, cb.distinct_symbols);
    assert_eq!(ca.suggestion, cb.suggestion);
}
