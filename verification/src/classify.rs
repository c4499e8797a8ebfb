//! Classify a recommended cut and suggest the refactor mechanic to break it.
//!
//! Without name resolution we lean on Rust naming conventions —
//! `UpperCamelCase` leaf = a type/trait, `snake_case` leaf = a value/fn/module,
//! `*` = a glob re-export — to classify each cut and emit a concrete,
//! imperative instruction plus a difficulty estimate. Effort is weighted by
//! distinct files, distinct symbols and the cut kind.

use vstd::prelude::*;
use crate::sort::{sort_strings, sorted_seqs, dedup_strings, dedup_seq, lemma_sorted_distinct_by_elements};
use crate::text::{
    views, chars_of, chars_after_last, after_last, trim_chars, trim_seq, string_from_chars,
    ascii_upper, ascii_lower, is_ascii_upper, is_ascii_lower, str_eq, join, join_seqs,
    usize_to_string, decimal,
};
use crate::analyze::OccurrenceOut;

verus! {

/// What the cut edge is made of, inferred from the referenced leaf symbols.
#[derive(Clone, Copy, Debug, PartialEq, Eq)]
pub enum CutKind {
    /// Every referenced leaf is a type/trait/enum (`UpperCamelCase`): move the
    /// shared type down into a foundation crate.
    MoveType,
    /// Referenced leaves are values — functions, consts, or bare modules;
    /// usually needs dependency inversion.
    FunctionCall,
    /// At least one glob re-export (`use crate::x::*`).
    Glob,
    /// A mix of types and values.
    Mixed,
}

pub open spec fn cut_kind_label(k: CutKind) -> Seq<char> {
    match k {
        CutKind::MoveType => "move-type-to-foundation"@,
        CutKind::FunctionCall => "dependency-inversion"@,
        CutKind::Glob => "inspect-glob-reexport"@,
        CutKind::Mixed => "extract-shared"@,
    }
}

impl CutKind {
    pub fn label(self) -> (r: &'static str)
        ensures
            r@ == cut_kind_label(self),
    {
        match self {
            CutKind::MoveType => "move-type-to-foundation",
            CutKind::FunctionCall => "dependency-inversion",
            CutKind::Glob => "inspect-glob-reexport",
            CutKind::Mixed => "extract-shared",
        }
    }
}

/// Rough refactor effort, derived from kind + distinct files + distinct symbols.
#[derive(Clone, Copy, Debug, PartialEq, Eq)]
pub enum Difficulty {
    /// One small mechanical move.
    Trivial,
    /// A handful of edits, possibly across a few files.
    Moderate,
    /// Many sites, a glob, or behavioural inversion.
    Hard,
}

pub open spec fn difficulty_label(d: Difficulty) -> Seq<char> {
    match d {
        Difficulty::Trivial => "trivial"@,
        Difficulty::Moderate => "moderate"@,
        Difficulty::Hard => "hard"@,
    }
}

impl Difficulty {
    pub fn label(self) -> (r: &'static str)
        ensures
            r@ == difficulty_label(self),
    {
        match self {
            Difficulty::Trivial => "trivial",
            Difficulty::Moderate => "moderate",
            Difficulty::Hard => "hard",
        }
    }
}

/// The classification of a single cut, attached to each `BackEdge`.
#[derive(Clone, Debug)]
pub struct CutClassification {
    pub kind: CutKind,
    pub difficulty: Difficulty,
    /// Number of distinct source files the cut's references span.
    pub distinct_files: usize,
    /// Distinct leaf symbols referenced (sorted, deduped).
    pub distinct_symbols: Vec<String>,
    /// Concrete, imperative instruction for breaking the cut.
    pub suggestion: String,
}

/// Type-like (`UpperCamelCase`): starts with an ASCII uppercase letter and
/// contains an ASCII lowercase one (so `MAX_LEN` is value-like).
pub open spec fn type_like(s: Seq<char>) -> bool {
    s.len() > 0 && is_ascii_upper(s[0]) && exists|i: int| 0 <= i < s.len() && is_ascii_lower(#[trigger] s[i])
}

pub fn is_type_like(sym: &str) -> (r: bool)
    ensures
        r == type_like(sym@),
{
    let v = chars_of(sym);
    if v.len() == 0 || !ascii_upper(v[0]) {
        return false;
    }
    let mut i: usize = 0;
    while i < v.len()
        invariant
            i <= v@.len(),
            v@ == sym@,
            v@.len() > 0,
            is_ascii_upper(v@[0]),
            forall|j: int| 0 <= j < i ==> !is_ascii_lower(#[trigger] v@[j]),
        decreases v@.len() - i,
    {
        if ascii_lower(v[i]) {
            proof {
                assert(is_ascii_lower(sym@[i as int]));
            }
            return true;
        }
        i = i + 1;
    }
    false
}

/// The trailing `::` segment of a reference path, trimmed.
pub open spec fn leaf_of(path: Seq<char>) -> Seq<char> {
    trim_seq(after_last(path, "::"@))
}

/// The trailing `::` segment of a reference path, e.g.
/// `crate::ai::coach::CriticOutcome` -> `CriticOutcome`.
pub fn leaf_symbol(path: &str) -> (r: String)
    ensures
        r@ == leaf_of(path@),
{
    let v = chars_of(path);
    let sep = chars_of("::");
    proof {
        reveal_strlit("::");
    }
    let last = chars_after_last(&v, &sep);
    let t = trim_chars(last.as_slice());
    string_from_chars(&t)
}

/// The first `n` symbols wrapped in backticks.
pub open spec fn ticked(symbols: Seq<Seq<char>>, n: nat) -> Seq<Seq<char>> {
    symbols.take(if symbols.len() < n { symbols.len() as int } else { n as int }).map_values(|s: Seq<char>| "`"@ + s + "`"@)
}

/// Up to `n` symbols as a backtick list, with a "(+k more)" tail.
pub open spec fn symbol_list_text(symbols: Seq<Seq<char>>, n: nat) -> Seq<char> {
    if symbols.len() == 0 {
        "the referenced item(s)"@
    } else {
        let shown = join_seqs(ticked(symbols, n), ", "@);
        if symbols.len() > n {
            shown + " (+"@ + decimal((symbols.len() - n) as nat) + " more)"@
        } else {
            shown
        }
    }
}

/// Render up to `n` symbols as a backtick list, with a "+k more" tail.
pub fn symbol_list(symbols: &Vec<String>, n: usize) -> (r: String)
    ensures
        r@ == symbol_list_text(views(symbols@), n as nat),
{
    if symbols.len() == 0 {
        return "the referenced item(s)".to_owned();
    }
    let take: usize = if symbols.len() < n { symbols.len() } else { n };
    let mut shown: Vec<String> = Vec::new();
    let mut i: usize = 0;
    while i < take
        invariant
            take <= symbols@.len(),
            i <= take,
            views(shown@) == views(symbols@).take(i as int).map_values(|s: Seq<char>| "`"@ + s + "`"@),
        decreases take - i,
    {
        let mut t = "`".to_owned();
        t.append(symbols[i].as_str());
        t.append("`");
        let ghost before = views(shown@);
        shown.push(t);
        proof {
            assert(t@ == "`"@ + symbols@[i as int]@ + "`"@);
            assert(views(shown@) =~= before.push(t@));
            assert(views(symbols@).take(i + 1) =~= views(symbols@).take(i as int).push(symbols@[i as int]@));
            assert(views(shown@) =~= views(symbols@).take(i + 1).map_values(|s: Seq<char>| "`"@ + s + "`"@));
        }
        i = i + 1;
    }
    proof {
        assert(views(symbols@).take(take as int) == views(symbols@).take(if views(symbols@).len() < n { views(symbols@).len() as int } else { n as int }));
    }
    let mut out = join(&shown, ", ");
    if symbols.len() > n {
        out.append(" (+");
        let k = usize_to_string(symbols.len() - n);
        out.append(k.as_str());
        out.append(" more)");
    }
    out
}

/// Elements of `s` satisfying "type-like", in order.
pub open spec fn type_syms(s: Seq<Seq<char>>) -> Seq<Seq<char>>
    decreases s.len(),
{
    if s.len() == 0 {
        s
    } else if type_like(s.last()) {
        type_syms(s.drop_last()).push(s.last())
    } else {
        type_syms(s.drop_last())
    }
}

/// Elements of `s` neither type-like nor `*`, in order.
pub open spec fn value_syms(s: Seq<Seq<char>>) -> Seq<Seq<char>>
    decreases s.len(),
{
    if s.len() == 0 {
        s
    } else if !type_like(s.last()) && s.last() != "*"@ {
        value_syms(s.drop_last()).push(s.last())
    } else {
        value_syms(s.drop_last())
    }
}

/// The file of each occurrence, in order.
pub open spec fn occurrence_files(occs: Seq<OccurrenceOut>) -> Seq<Seq<char>> {
    occs.map_values(|o: OccurrenceOut| o.file@)
}

/// The leaf symbol of each occurrence, in order.
pub open spec fn occurrence_leaves(occs: Seq<OccurrenceOut>) -> Seq<Seq<char>> {
    occs.map_values(|o: OccurrenceOut| leaf_of(o.path@))
}

/// The sorted, deduplicated files of the occurrences.
pub open spec fn distinct_files_of(occs: Seq<OccurrenceOut>) -> Seq<Seq<char>> {
    dedup_seq(sorted_seqs(occurrence_files(occs)))
}

/// The sorted, deduplicated leaf symbols of the occurrences.
pub open spec fn distinct_symbols_of(occs: Seq<OccurrenceOut>) -> Seq<Seq<char>> {
    dedup_seq(sorted_seqs(occurrence_leaves(occs)))
}

/// The cut kind for a list of distinct symbols.
pub open spec fn kind_of(symbols: Seq<Seq<char>>) -> CutKind {
    if symbols.contains("*"@) {
        CutKind::Glob
    } else if type_syms(symbols).len() > 0 && value_syms(symbols).len() == 0 {
        CutKind::MoveType
    } else if type_syms(symbols).len() == 0 && value_syms(symbols).len() > 0 {
        CutKind::FunctionCall
    } else {
        CutKind::Mixed
    }
}

/// The difficulty for a kind, a number of distinct files and of symbols.
pub open spec fn difficulty_of(kind: CutKind, files: nat, symbols: nat) -> Difficulty {
    let penalty: nat = match kind {
        CutKind::MoveType => 0,
        CutKind::FunctionCall | CutKind::Mixed => 2,
        CutKind::Glob => 4,
    };
    if kind == CutKind::Glob {
        Difficulty::Hard
    } else if kind == CutKind::MoveType && files <= 2 && symbols <= 3 {
        Difficulty::Trivial
    } else if files + symbols + penalty >= 8 {
        Difficulty::Hard
    } else {
        Difficulty::Moderate
    }
}

/// The suggestion text for a cut.
pub open spec fn suggestion_of(kind: CutKind, source: Seq<char>, target: Seq<char>, symbols: Seq<Seq<char>>) -> Seq<char> {
    let t = type_syms(symbols);
    let v = value_syms(symbols);
    match kind {
        CutKind::MoveType => "Move "@ + symbol_list_text(t, 4) + " out of `"@ + target
            + "` into a shared foundation crate (e.g. a `*-types` crate that both `"@ + source + "` and `"@
            + target + "` depend on). The upward edge then disappears — both sides import the type from below."@,
        CutKind::FunctionCall => "Invert the dependency: `"@ + source + "` is calling up into `"@ + target
            + "` via "@ + symbol_list_text(v, 4)
            + ". Define a trait (or fn pointer / callback) in `"@ + source
            + "` or a foundation crate that captures what it needs, have `"@ + target
            + "` implement and inject it. `"@ + source + "` must not name `"@ + target + "` directly."@,
        CutKind::Glob => "`"@ + source + "` glob-imports from `"@ + target + "` (`use crate::"@ + target
            + "::*`). Replace the glob with explicit imports first to see the true coupling, then move shared types down or invert the call edge as appropriate."@,
        CutKind::Mixed => "Mixed coupling — types "@ + symbol_list_text(t, 3) + " and values "@
            + symbol_list_text(v, 3)
            + ". Move the shared types into a foundation crate; for the remaining calls, invert via a trait in the lower crate."@,
    }
}

/// `c` is the classification of a cut from `source` to `target` with the
/// given occurrences.
pub open spec fn classified(c: CutClassification, source: Seq<char>, target: Seq<char>, occs: Seq<OccurrenceOut>) -> bool {
    let syms = distinct_symbols_of(occs);
    &&& c.distinct_files == distinct_files_of(occs).len()
    &&& views(c.distinct_symbols@) == syms
    &&& c.kind == kind_of(syms)
    &&& c.difficulty == difficulty_of(c.kind, c.distinct_files as nat, syms.len())
    &&& c.suggestion@ == suggestion_of(c.kind, source, target, syms)
}

/// Keep the type-like symbols (`types == true`) or the value symbols.
fn select_symbols(symbols: &Vec<String>, types: bool) -> (r: Vec<String>)
    ensures
        views(r@) == if types { type_syms(views(symbols@)) } else { value_syms(views(symbols@)) },
{
    let mut r: Vec<String> = Vec::new();
    let mut i: usize = 0;
    while i < symbols.len()
        invariant
            i <= symbols@.len(),
            views(r@) == if types { type_syms(views(symbols@).take(i as int)) } else { value_syms(views(symbols@).take(i as int)) },
        decreases symbols@.len() - i,
    {
        let s = &symbols[i];
        let tl = is_type_like(s.as_str());
        let star = str_eq(s, "*");
        proof {
            assert(views(symbols@).take(i + 1).drop_last() =~= views(symbols@).take(i as int));
            assert(views(symbols@).take(i + 1).last() == s@);
        }
        if (types && tl) || (!types && !tl && !star) {
            let ghost before = views(r@);
            r.push(s.clone());
            proof {
                assert(views(r@) =~= before.push(s@));
            }
        }
        i = i + 1;
    }
    proof {
        assert(views(symbols@).take(symbols@.len() as int) =~= views(symbols@));
    }
    r
}


/// Whether some string of `v` is `*`.
fn has_glob(v: &Vec<String>) -> (r: bool)
    ensures
        r == views(v@).contains("*"@),
{
    let mut i: usize = 0;
    while i < v.len()
        invariant
            i <= v@.len(),
            forall|j: int| 0 <= j < i ==> v@[j]@ != "*"@,
        decreases v@.len() - i,
    {
        if str_eq(&v[i], "*") {
            proof {
                assert(views(v@)[i as int] == "*"@);
            }
            return true;
        }
        i = i + 1;
    }
    proof {
        if views(v@).contains("*"@) {
            let j = choose|j: int| 0 <= j < views(v@).len() && views(v@)[j] == "*"@;
            assert(v@[j]@ == "*"@);
        }
    }
    false
}

/// Classify a cut from its occurrences and the two module labels.
///
/// `source` depends "upward" on `target` (target sits higher in the intended
/// foundation→top order). Breaking the cut means severing that upward edge.
pub fn classify(source: &str, target: &str, occs: &[OccurrenceOut]) -> (r: CutClassification)
    ensures
        classified(r, source@, target@, occs@),
{
    let mut files: Vec<String> = Vec::new();
    let mut leaves: Vec<String> = Vec::new();
    let mut i: usize = 0;
    while i < occs.len()
        invariant
            i <= occs@.len(),
            views(files@) == occurrence_files(occs@.take(i as int)),
            views(leaves@) == occurrence_leaves(occs@.take(i as int)),
        decreases occs@.len() - i,
    {
        let ghost fb = views(files@);
        let ghost lb = views(leaves@);
        files.push(occs[i].file.clone());
        leaves.push(leaf_symbol(occs[i].path.as_str()));
        proof {
            assert(occs@.take(i + 1) =~= occs@.take(i as int).push(occs@[i as int]));
            assert(views(files@) =~= fb.push(occs@[i as int].file@));
            assert(views(leaves@) =~= lb.push(leaf_of(occs@[i as int].path@)));
            assert(views(files@) =~= occurrence_files(occs@.take(i + 1)));
            assert(views(leaves@) =~= occurrence_leaves(occs@.take(i + 1)));
        }
        i = i + 1;
    }
    proof {
        assert(occs@.take(occs@.len() as int) =~= occs@);
    }
    let files = dedup_strings(sort_strings(files));
    let distinct_files = files.len();
    let symbols = dedup_strings(sort_strings(leaves));
    let ghost syms = views(symbols@);
    assert(syms == distinct_symbols_of(occs@));

    let glob = has_glob(&symbols);
    let types = select_symbols(&symbols, true);
    let values = select_symbols(&symbols, false);

    let kind = if glob {
        CutKind::Glob
    } else if types.len() > 0 && values.len() == 0 {
        CutKind::MoveType
    } else if types.len() == 0 && values.len() > 0 {
        CutKind::FunctionCall
    } else {
        CutKind::Mixed
    };
    proof {
        assert(views(types@).len() == types@.len());
        assert(views(values@).len() == values@.len());
    }

    let n_symbols = symbols.len();
    let difficulty = match kind {
        CutKind::Glob => Difficulty::Hard,
        CutKind::MoveType => {
            if distinct_files <= 2 && n_symbols <= 3 {
                Difficulty::Trivial
            } else if distinct_files >= 8 || n_symbols >= 8 - distinct_files {
                Difficulty::Hard
            } else {
                Difficulty::Moderate
            }
        },
        CutKind::FunctionCall | CutKind::Mixed => {
            if distinct_files >= 6 || n_symbols >= 6 - distinct_files {
                Difficulty::Hard
            } else {
                Difficulty::Moderate
            }
        },
    };

    let mut suggestion = String::new();
    match kind {
        CutKind::MoveType => {
            suggestion.append("Move ");
            suggestion.append(symbol_list(&types, 4).as_str());
            suggestion.append(" out of `");
            suggestion.append(target);
            suggestion.append("` into a shared foundation crate (e.g. a `*-types` crate that both `");
            suggestion.append(source);
            suggestion.append("` and `");
            suggestion.append(target);
            suggestion.append("` depend on). The upward edge then disappears — both sides import the type from below.");
        },
        CutKind::FunctionCall => {
            suggestion.append("Invert the dependency: `");
            suggestion.append(source);
            suggestion.append("` is calling up into `");
            suggestion.append(target);
            suggestion.append("` via ");
            suggestion.append(symbol_list(&values, 4).as_str());
            suggestion.append(". Define a trait (or fn pointer / callback) in `");
            suggestion.append(source);
            suggestion.append("` or a foundation crate that captures what it needs, have `");
            suggestion.append(target);
            suggestion.append("` implement and inject it. `");
            suggestion.append(source);
            suggestion.append("` must not name `");
            suggestion.append(target);
            suggestion.append("` directly.");
        },
        CutKind::Glob => {
            suggestion.append("`");
            suggestion.append(source);
            suggestion.append("` glob-imports from `");
            suggestion.append(target);
            suggestion.append("` (`use crate::");
            suggestion.append(target);
            suggestion.append("::*`). Replace the glob with explicit imports first to see the true coupling, then move shared types down or invert the call edge as appropriate.");
        },
        CutKind::Mixed => {
            suggestion.append("Mixed coupling — types ");
            suggestion.append(symbol_list(&types, 3).as_str());
            suggestion.append(" and values ");
            suggestion.append(symbol_list(&values, 3).as_str());
            suggestion.append(". Move the shared types into a foundation crate; for the remaining calls, invert via a trait in the lower crate.");
        },
    }
    CutClassification { kind, difficulty, distinct_files, distinct_symbols: symbols, suggestion }
}

/// Law: a cut's classification depends only on which files its occurrences
/// lie in and which leaf symbols they name: occurrence lists with the same
/// files and the same leaf symbols, in any order, counts or lines, classify
/// alike.
pub proof fn lemma_classification_by_files_and_symbols(
    source: Seq<char>,
    target: Seq<char>,
    occs1: Seq<OccurrenceOut>,
    occs2: Seq<OccurrenceOut>,
)
    requires
        forall|f: Seq<char>| occurrence_files(occs1).contains(f) <==> occurrence_files(occs2).contains(f),
        forall|l: Seq<char>| occurrence_leaves(occs1).contains(l) <==> occurrence_leaves(occs2).contains(l),
    ensures
        distinct_files_of(occs1) == distinct_files_of(occs2),
        distinct_symbols_of(occs1) == distinct_symbols_of(occs2),
        forall|c: CutClassification| classified(c, source, target, occs1) <==> classified(c, source, target, occs2),
{
    lemma_sorted_distinct_by_elements(occurrence_files(occs1), occurrence_files(occs2));
    lemma_sorted_distinct_by_elements(occurrence_leaves(occs1), occurrence_leaves(occs2));
}

/// Law: how hard a cut is follows from its kind and its numbers of distinct
/// files `f` and symbols `s`. A glob cut is hard. Only a move-type cut can be
/// trivial, and it is exactly when `f <= 2` and `s <= 3`; otherwise it is
/// moderate when `f + s < 8` and hard when not. A function-call or mixed cut
/// is never trivial: moderate when `f + s + 2 < 8`, hard otherwise.
pub proof fn lemma_difficulty_rules(c: CutClassification, source: Seq<char>, target: Seq<char>, occs: Seq<OccurrenceOut>)
    requires
        classified(c, source, target, occs),
    ensures
        c.difficulty == Difficulty::Trivial ==> c.kind == CutKind::MoveType,
        c.kind == CutKind::Glob ==> c.difficulty == Difficulty::Hard,
        c.kind == CutKind::MoveType ==> (c.difficulty == Difficulty::Trivial <==> c.distinct_files <= 2 && c.distinct_symbols@.len() <= 3),
        c.kind == CutKind::MoveType && !(c.distinct_files <= 2 && c.distinct_symbols@.len() <= 3)
            ==> (c.difficulty == Difficulty::Moderate <==> c.distinct_files + c.distinct_symbols@.len() < 8)
                && (c.difficulty == Difficulty::Hard <==> c.distinct_files + c.distinct_symbols@.len() >= 8),
        c.kind == CutKind::FunctionCall || c.kind == CutKind::Mixed
            ==> (c.difficulty == Difficulty::Moderate <==> c.distinct_files + c.distinct_symbols@.len() + 2 < 8)
                && (c.difficulty == Difficulty::Hard <==> c.distinct_files + c.distinct_symbols@.len() + 2 >= 8),
{
    assert(views(c.distinct_symbols@).len() == c.distinct_symbols@.len());
}

} // verus!
