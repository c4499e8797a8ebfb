//! SCC computation, condensation, layering, and back-edge (feedback-arc-set)
//! heuristic.

use vstd::prelude::*;
use crate::scc::{is_scc_decomposition, comp_views, in_comp, covered, mutual, is_path, has_edge, path_step};
use crate::modpath::clone_strings;
use crate::graph::{kept_edges, cut_listed, cut_contains, lemma_kept_edges, lemma_kept_none, Occurrence, ModuleGraph, LabelEdge, EdgeWeight, ModuleNode, graph_edges};
use crate::classify::{CutClassification, classify, classified};
use crate::sort::{SortKey, stable_sort, stable_sorted, rearranged, lemma_stable_sorted_perm, is_key_sorted, key_transitive_on, lemma_stable_sorted_sorted, key_weak_on, lemma_stable_sorted_stable};
use crate::counting::{seq_sum, picked_sum, lemma_picked_sum_bound};
use crate::frontier::compute_frontier;
use crate::sort::{sort_strings, sorted_seqs, dedup_strings, dedup_seq};
use crate::fas::{WeightedEdge, min_fas_order, total_weight, els_order, pos_in};
use crate::graph::{graph_node, graph_node_count, graph_edge_count, graph_edge_ends, graph_edge_weight};
use petgraph::graph::DiGraph;
use crate::text::{
    views, chars_of, string_from_chars, is_ascii_alnum, lower_char, ascii_alnum, to_lower_char,
    trim_char, chars_trim_char, seq_lt, string_lt,
};

verus! {

/// A reference occurrence rendered for output.
#[derive(Clone, Debug)]
pub struct OccurrenceOut {
    pub file: String,
    pub line: usize,
    pub path: String,
}

/// `out` renders the occurrence `o`.
pub open spec fn renders(out: OccurrenceOut, o: Occurrence) -> bool {
    out.file@ == o.file@ && out.line == o.line && out.path@ == o.path@
}

impl OccurrenceOut {
    pub fn from(o: &Occurrence) -> (r: Self)
        ensures
            renders(r, *o),
    {
        OccurrenceOut { file: o.file.clone(), line: o.line, path: o.path.clone() }
    }
}

/// A proposed crate (one SCC).
#[derive(Clone, Debug)]
pub struct CrateProposal {
    /// Suggested crate name, e.g. `<prefix>-models`.
    pub crate_name: String,
    /// Module labels contained in this crate.
    pub modules: Vec<String>,
    /// Total LOC across contained modules.
    pub loc: usize,
    /// Total file count across contained modules.
    pub file_count: usize,
    /// Dependency layer (0 = foundation/sink crates).
    pub layer: usize,
    /// Names of other proposed crates this crate depends on.
    pub depends_on: Vec<String>,
    /// True if this SCC contains a real cycle (>1 module).
    pub is_cycle: bool,
    /// Internal SCC index (for cross-referencing back-edges).
    pub scc: usize,
}

/// A back-edge to remove to break a cycle within a multi-module SCC.
#[derive(Clone, Debug)]
pub struct BackEdge {
    pub source_module: String,
    pub target_module: String,
    pub occurrence_count: usize,
    pub occurrences: Vec<OccurrenceOut>,
    /// The SCC (crate proposal) this cycle belongs to.
    pub scc: usize,
    /// Inferred cut kind, difficulty, and a concrete how-to-break suggestion.
    pub classification: CutClassification,
}

/// A dependency layer grouping crate proposals.
#[derive(Clone, Debug)]
pub struct Layer {
    pub level: usize,
    pub crates: Vec<String>,
}

/// How many of the recommended cuts to actually apply when forming the
/// proposed decomposition.
#[derive(Clone, Copy, Debug)]
pub enum CutBudget {
    /// Apply every recommended cut (the maximal cheap decomposition).
    All,
    /// Apply only the `N` cheapest cuts.
    MaxCuts(usize),
    /// Apply cheapest cuts in order until cumulative occurrences would exceed `M`.
    Refs(usize),
}

impl Default for CutBudget {
    fn default() -> (r: Self)
        ensures
            r == CutBudget::All,
    {
        CutBudget::All
    }
}

/// Full analysis result.
#[derive(Clone, Debug)]
pub struct Analysis {
    pub package_name: String,
    pub crate_prefix: String,
    pub granularity: usize,
    /// Proposed crates = SCCs of `G − applied_cuts`.
    pub proposals: Vec<CrateProposal>,
    pub layers: Vec<Layer>,
    /// The recommended cuts (cheapest first).
    pub back_edges: Vec<BackEdge>,
    /// How many of `back_edges` were applied to form `proposals` (cheapest first).
    pub applied_cut_count: usize,
    /// Cumulative reference occurrences across the applied cuts.
    pub applied_refs_cut: usize,
    /// Modules that sat in a multi-module SCC in the raw graph `G` but are
    /// standalone after the applied cuts.
    pub freed_modules: Vec<String>,
    /// Effort/payoff frontier: one row per `k = 0..=back_edges.len()` cuts.
    pub frontier: Vec<crate::frontier::FrontierStep>,
    pub summary: Summary,
}

#[derive(Clone, Debug)]
pub struct Summary {
    pub module_count: usize,
    pub proposed_crate_count: usize,
    pub largest_crate_loc: usize,
    /// Multi-module cycles remaining AFTER the applied cuts.
    pub cycle_count: usize,
    /// Total recommended cuts available (the full cheap cut set).
    pub recommended_cut_count: usize,
}

/// A crate-name fragment character: ASCII alphanumerics lowercased, anything
/// else a `-`.
pub open spec fn name_char(c: char) -> char {
    if is_ascii_alnum(c) { lower_char(c) } else { '-' }
}

pub open spec fn sanitized(s: Seq<char>) -> Seq<char> {
    s.map_values(|c: char| name_char(c))
}

/// `s` with every run of `-` collapsed to a single `-`.
pub open spec fn collapse_dashes(s: Seq<char>) -> Seq<char>
    decreases s.len(),
{
    if s.len() <= 1 {
        s
    } else if s.last() == '-' && s[s.len() - 2] == '-' {
        collapse_dashes(s.drop_last())
    } else {
        collapse_dashes(s.drop_last()).push(s.last())
    }
}

/// The crate-name prefix derived from a package name.
pub open spec fn prefix_of(package_name: Seq<char>) -> Seq<char> {
    trim_char(collapse_dashes(sanitized(package_name)), '-')
}

fn sanitize(v: &Vec<char>) -> (r: Vec<char>)
    ensures
        r@ == sanitized(v@),
{
    let mut r: Vec<char> = Vec::new();
    let mut i: usize = 0;
    while i < v.len()
        invariant
            i <= v@.len(),
            r@ == sanitized(v@.take(i as int)),
        decreases v@.len() - i,
    {
        let c = v[i];
        let d = if ascii_alnum(c) { to_lower_char(c) } else { '-' };
        r.push(d);
        proof {
            assert(sanitized(v@.take(i + 1)) =~= sanitized(v@.take(i as int)).push(name_char(c)));
        }
        i = i + 1;
    }
    proof {
        assert(v@.take(v@.len() as int) =~= v@);
    }
    r
}

fn collapse(v: &Vec<char>) -> (r: Vec<char>)
    ensures
        r@ == collapse_dashes(v@),
{
    let mut r: Vec<char> = Vec::new();
    let mut i: usize = 0;
    while i < v.len()
        invariant
            i <= v@.len(),
            r@ == collapse_dashes(v@.take(i as int)),
        decreases v@.len() - i,
    {
        let c = v[i];
        proof {
            assert(v@.take(i + 1).drop_last() =~= v@.take(i as int));
        }
        if !(c == '-' && i > 0 && v[i - 1] == '-') {
            r.push(c);
        }
        i = i + 1;
    }
    proof {
        assert(v@.take(v@.len() as int) =~= v@);
    }
    r
}

/// Derive a crate-name prefix from the package name (sanitized, runs of `-`
/// collapsed, no leading or trailing `-`).
pub fn crate_prefix(package_name: &str) -> (r: String)
    ensures
        r@ == prefix_of(package_name@),
{
    let v = chars_of(package_name);
    let s = sanitize(&v);
    let c = collapse(&s);
    let t = chars_trim_char(&c, '-');
    string_from_chars(&t)
}

/// Length in bytes of the UTF-8 encoding of `s` (what `str::len` returns).
pub open spec fn byte_len(s: Seq<char>) -> usize {
    vstd::utf8::encode_utf8(s).len() as usize
}

/// `a` sorts before `b` by (byte length, text).
pub open spec fn shorter(a: Seq<char>, b: Seq<char>) -> bool {
    byte_len(a) < byte_len(b) || (byte_len(a) == byte_len(b) && seq_lt(a, b))
}

/// The first module label that is minimal by (length, text).
pub open spec fn shortest(s: Seq<Seq<char>>) -> Seq<char>
    decreases s.len(),
{
    if s.len() <= 1 {
        s[0]
    } else {
        let m = shortest(s.drop_last());
        if shorter(s.last(), m) { s.last() } else { m }
    }
}

/// The crate name suggested for a crate holding the given modules.
pub open spec fn crate_name_spec(prefix: Seq<char>, modules: Seq<Seq<char>>) -> Seq<char> {
    let base = if modules.len() == 0 { "crate"@ } else { shortest(modules) };
    let frag = trim_char(sanitized(base), '-');
    if prefix.len() == 0 { frag } else { prefix + "-"@ + frag }
}

/// Suggest a crate name for an SCC given its module labels: the shortest
/// (most foundational-looking) label, sanitized into a crate-name fragment.
pub fn crate_name_for(prefix: &str, modules: &[String]) -> (r: String)
    ensures
        r@ == crate_name_spec(prefix@, views(modules@)),
{
    let base: String = if modules.len() == 0 {
        proof {
            reveal_strlit("crate");
        }
        "crate".to_owned()
    } else {
        let mut best: usize = 0;
        let mut i: usize = 1;
        while i < modules.len()
            invariant
                1 <= i <= modules@.len(),
                best < i,
                modules@[best as int]@ == shortest(views(modules@).take(i as int)),
            decreases modules@.len() - i,
        {
            proof {
                assert(views(modules@).take(i + 1).drop_last() =~= views(modules@).take(i as int));
            }
            let li = modules[i].as_str().len();
            let lb = modules[best].as_str().len();
            proof {
                assert(views(modules@).take(i + 1).last() == modules@[i as int]@);
            }
            if li < lb || (li == lb && string_lt(&modules[i], &modules[best])) {
                best = i;
            }
            i = i + 1;
        }
        proof {
            assert(views(modules@).take(modules@.len() as int) =~= views(modules@));
        }
        modules[best].clone()
    };
    assert(base@ == (if modules@.len() == 0 { "crate"@ } else { shortest(views(modules@)) }));
    let frag_chars = chars_trim_char(&sanitize(&chars_of(base.as_str())), '-');
    let frag = string_from_chars(&frag_chars);
    if prefix.is_empty() {
        frag
    } else {
        let mut out = prefix.to_owned();
        out.append("-");
        out.append(frag.as_str());
        out
    }
}

/// Successor lists in which every successor has a smaller index (the
/// condensation's reverse topological numbering).
pub open spec fn points_down(succ: Seq<Seq<usize>>) -> bool {
    forall|i: int, j: int| 0 <= i < succ.len() && 0 <= j < succ[i].len() ==> (#[trigger] succ[i][j]) < i
}

/// Longest downward chain from `i` through its first `j` successors.
pub open spec fn chain_upto(succ: Seq<Seq<usize>>, i: int, j: int) -> nat
    decreases i, j,
{
    if i < 0 || i >= succ.len() || j <= 0 || j > succ[i].len() {
        0
    } else {
        let prev = chain_upto(succ, i, j - 1);
        let t = succ[i][j - 1] as int;
        let d: nat = if 0 <= t < i { 1 + chain_upto(succ, t, succ[t].len() as int) } else { 0 };
        if d > prev { d } else { prev }
    }
}

/// Longest-downward-chain layer of `i`: sinks (no successors) are layer 0.
pub open spec fn chain_len(succ: Seq<Seq<usize>>, i: int) -> nat {
    if 0 <= i < succ.len() { chain_upto(succ, i, succ[i].len() as int) } else { 0 }
}

proof fn lemma_chain_upto(succ: Seq<Seq<usize>>, i: int, j: int)
    requires
        points_down(succ),
        0 <= i < succ.len(),
        0 <= j <= succ[i].len(),
    ensures
        chain_upto(succ, i, j) <= i,
        forall|k: int| 0 <= k < j ==> chain_upto(succ, i, j) > chain_len(succ, #[trigger] succ[i][k] as int),
        j > 0 ==> exists|k: int| 0 <= k < j && chain_upto(succ, i, j) == 1 + chain_len(succ, #[trigger] succ[i][k] as int),
    decreases i, j,
{
    if j > 0 {
        lemma_chain_upto(succ, i, j - 1);
        let t = succ[i][j - 1] as int;
        assert(t < i);
        lemma_chain_upto(succ, t, succ[t].len() as int);
    }
}

/// A layer is above every layer it depends on; a layer above 0 sits right
/// above one of its successors.
pub proof fn lemma_chain_len(succ: Seq<Seq<usize>>, i: int)
    requires
        points_down(succ),
        0 <= i < succ.len(),
    ensures
        chain_len(succ, i) <= i,
        forall|k: int| 0 <= k < succ[i].len() ==> chain_len(succ, i) > chain_len(succ, #[trigger] succ[i][k] as int),
        chain_len(succ, i) == 0 <==> succ[i].len() == 0,
{
    lemma_chain_upto(succ, i, succ[i].len() as int);
}

/// Longest-downward-chain layering: sinks (no successors) = layer 0.
///
/// The successor lists come from the condensation of the strongly connected
/// components in the reverse topological order that Tarjan's algorithm gives
/// (`graph_tarjan_scc`, kept by `sccs_without`), so every successor of a
/// component has a smaller index (`points_down`, proved by `condense`); the
/// longest chain below a component is then computed in one pass by index.
fn compute_layers(succ: &Vec<Vec<usize>>) -> (r: Vec<usize>)
    requires
        points_down(succ@.map_values(|v: Vec<usize>| v@)),
    ensures
        r@.len() == succ@.len(),
        forall|i: int| 0 <= i < r@.len() ==> r@[i] == chain_len(succ@.map_values(|v: Vec<usize>| v@), i),
{
    let ghost ss = succ@.map_values(|v: Vec<usize>| v@);
    let n = succ.len();
    let mut layer: Vec<usize> = Vec::new();
    let mut i: usize = 0;
    while i < n
        invariant
            n == succ@.len(),
            ss == succ@.map_values(|v: Vec<usize>| v@),
            points_down(ss),
            i <= n,
            layer@.len() == i,
            forall|k: int| 0 <= k < i ==> #[trigger] layer@[k] == chain_len(ss, k) && layer@[k] <= k,
        decreases n - i,
    {
        let row = &succ[i];
        assert(row@ == ss[i as int]);
        let mut best: usize = 0;
        let mut j: usize = 0;
        while j < row.len()
            invariant
                n == succ@.len(),
                ss == succ@.map_values(|v: Vec<usize>| v@),
                points_down(ss),
                i < n,
                row@ == ss[i as int],
                layer@.len() == i,
                forall|k: int| 0 <= k < i ==> #[trigger] layer@[k] == chain_len(ss, k) && layer@[k] <= k,
                j <= row@.len(),
                best == chain_upto(ss, i as int, j as int),
            decreases row@.len() - j,
        {
            let t = row[j];
            assert(t < i);
            assert(layer@[t as int] <= t);
            assert(layer@[t as int] == chain_len(ss, t as int));
            let d = 1 + layer[t];
            if d > best {
                best = d;
            }
            j = j + 1;
        }
        proof {
            lemma_chain_upto(ss, i as int, row@.len() as int);
        }
        let ghost before = layer@;
        layer.push(best);
        proof {
            assert(layer@[i as int] == best);
            assert forall|k: int| 0 <= k < i + 1 implies #[trigger] layer@[k] == chain_len(ss, k) && layer@[k] <= k by {
                if k < i {
                    assert(layer@[k] == before[k]);
                }
            }
        }
        i = i + 1;
    }
    layer
}

/// Number of times `x` occurs in `s`.
pub open spec fn count_of(s: Seq<Seq<char>>, x: Seq<char>) -> nat
    decreases s.len(),
{
    if s.len() == 0 {
        0
    } else {
        count_of(s.drop_last(), x) + if s.last() == x { 1nat } else { 0nat }
    }
}

/// Name `i` after disambiguation: a name shared by several crates gets
/// `-<n>` appended, `n` counting its occurrences up to and including `i`.
pub open spec fn deduped_name(names: Seq<Seq<char>>, i: int) -> Seq<char> {
    if count_of(names, names[i]) > 1 {
        names[i] + "-"@ + crate::text::decimal(count_of(names.take(i + 1), names[i]))
    } else {
        names[i]
    }
}

proof fn lemma_count_bound(s: Seq<Seq<char>>, x: Seq<char>)
    ensures
        count_of(s, x) <= s.len(),
    decreases s.len(),
{
    if s.len() > 0 {
        lemma_count_bound(s.drop_last(), x);
    }
}

/// Count of `x` in `names`.
fn count_name(names: &Vec<String>, x: &String, upto: usize) -> (r: usize)
    requires
        upto <= names@.len(),
    ensures
        r == count_of(views(names@).take(upto as int), x@),
{
    let mut c: usize = 0;
    let mut i: usize = 0;
    while i < upto
        invariant
            upto <= names@.len(),
            i <= upto,
            c == count_of(views(names@).take(i as int), x@),
        decreases upto - i,
    {
        proof {
            assert(views(names@).take(i + 1).drop_last() =~= views(names@).take(i as int));
            lemma_count_bound(views(names@).take(i as int), x@);
        }
        if names[i] == *x {
            c = c + 1;
        }
        i = i + 1;
    }
    c
}

/// Disambiguate duplicate crate names.
fn dedup_crate_names(names: &Vec<String>) -> (r: Vec<String>)
    ensures
        r@.len() == names@.len(),
        forall|i: int| 0 <= i < r@.len() ==> (#[trigger] r@[i])@ == deduped_name(views(names@), i),
{
    let n = names.len();
    let mut r: Vec<String> = Vec::new();
    let mut i: usize = 0;
    while i < n
        invariant
            n == names@.len(),
            i <= n,
            r@.len() == i,
            forall|k: int| 0 <= k < i ==> (#[trigger] r@[k])@ == deduped_name(views(names@), k),
        decreases n - i,
    {
        let total = count_name(names, &names[i], n);
        proof {
            assert(views(names@).take(n as int) =~= views(names@));
        }
        if total > 1 {
            let rank = count_name(names, &names[i], i + 1);
            let mut s = names[i].clone();
            s.append("-");
            s.append(crate::text::usize_to_string(rank).as_str());
            r.push(s);
        } else {
            r.push(names[i].clone());
        }
        i = i + 1;
    }
    r
}

/// Sizes of the edges' occurrence lists, by edge index.
pub open spec fn edge_sizes(g: DiGraph<ModuleNode, EdgeWeight>) -> Seq<nat> {
    graph_edges(g).map_values(|e: (usize, usize, EdgeWeight)| e.2@.len())
}

/// Total number of reference occurrences over all edges.
pub open spec fn occurrence_total(mg: ModuleGraph) -> nat {
    seq_sum(edge_sizes(mg.graph))
}

/// Edge `k` joins two distinct members of `comp`.
pub open spec fn inner_edge(mg: ModuleGraph, comp: Seq<usize>, k: int) -> bool {
    &&& 0 <= k < mg.ends().len()
    &&& mg.ends()[k].0 != mg.ends()[k].1
    &&& comp.contains(mg.ends()[k].0)
    &&& comp.contains(mg.ends()[k].1)
}

/// `be` reports edge `k` of `mg` as a cut inside SCC `scc`.
pub open spec fn reports_edge(be: BackEdge, mg: ModuleGraph, k: int, scc: usize) -> bool {
    let e = graph_edges(mg.graph)[k];
    &&& be.source_module@ == mg.labels()[e.0 as int]
    &&& be.target_module@ == mg.labels()[e.1 as int]
    &&& be.occurrence_count == e.2@.len()
    &&& be.occurrences@.len() == e.2@.len()
    &&& forall|i: int| 0 <= i < e.2@.len() ==> renders(#[trigger] be.occurrences@[i], e.2@[i])
    &&& be.scc == scc
    &&& classified(be.classification, be.source_module@, be.target_module@, be.occurrences@)
}

/// Cheapest first: fewer occurrences, then by source module label.
impl SortKey for BackEdge {
    open spec fn key_lt(self, other: Self) -> bool {
        self.occurrence_count < other.occurrence_count
            || (self.occurrence_count == other.occurrence_count && seq_lt(self.source_module@, other.source_module@))
    }

    fn sorts_before(&self, other: &Self) -> (b: bool) {
        self.occurrence_count < other.occurrence_count
            || (self.occurrence_count == other.occurrence_count && string_lt(&self.source_module, &other.source_module))
    }
}

/// A node keyed by its label, for sorting a component by label.
struct Keyed {
    label: String,
    node: usize,
}

impl SortKey for Keyed {
    closed spec fn key_lt(self, other: Self) -> bool {
        seq_lt(self.label@, other.label@)
    }

    fn sorts_before(&self, other: &Self) -> (b: bool) {
        string_lt(&self.label, &other.label)
    }
}

/// `order` lists each of `0..m` exactly once.
pub open spec fn is_order(order: Seq<usize>, m: nat) -> bool {
    &&& order.len() == m
    &&& order.no_duplicates()
    &&& forall|x: usize| order.contains(x) <==> x < m
}

/// The back edge reporting edge `k` of the graph.
fn make_back_edge(mg: &ModuleGraph, labels: &Vec<String>, k: usize, scc_index: usize) -> (r: BackEdge)
    requires
        views(labels@) == mg.labels(),
        k < graph_edges(mg.graph).len(),
    ensures
        reports_edge(r, *mg, k as int, scc_index),
{
    let (s, t) = graph_edge_ends(&mg.graph, k);
    let w = graph_edge_weight(&mg.graph, k);
    let mut occs: Vec<OccurrenceOut> = Vec::new();
    let mut i: usize = 0;
    while i < w.len()
        invariant
            i <= w@.len(),
            occs@.len() == i,
            forall|j: int| 0 <= j < i ==> renders(#[trigger] occs@[j], w@[j]),
        decreases w@.len() - i,
    {
        occs.push(OccurrenceOut::from(&w[i]));
        i = i + 1;
    }
    proof {
        assert(mg.labels().len() == mg.nodes().len());
        assert(views(labels@).len() == labels@.len());
        assert(views(labels@)[s as int] == labels@[s as int]@);
        assert(views(labels@)[t as int] == labels@[t as int]@);
    }
    let source_module = labels[s].clone();
    let target_module = labels[t].clone();
    let classification = classify(source_module.as_str(), target_module.as_str(), occs.as_slice());
    let occurrence_count = occs.len();
    BackEdge { source_module, target_module, occurrence_count, occurrences: occs, scc: scc_index, classification }
}

/// `v` reversed.
fn reversed(v: Vec<usize>) -> (r: Vec<usize>)
    ensures
        r@ == v@.reverse(),
{
    let mut r: Vec<usize> = Vec::new();
    let mut i: usize = v.len();
    while i > 0
        invariant
            i <= v@.len(),
            r@ == v@.skip(i as int).reverse(),
        decreases i,
    {
        i = i - 1;
        r.push(v[i]);
        proof {
            assert(v@.skip(i as int).reverse() =~= v@.skip(i + 1).reverse().push(v@[i as int]));
        }
    }
    proof {
        assert(v@.skip(0) =~= v@);
    }
    r
}

proof fn lemma_reverse_order(o: Seq<usize>, m: nat)
    requires
        is_order(o, m),
    ensures
        is_order(o.reverse(), m),
{
    let r = o.reverse();
    assert forall|x: usize| r.contains(x) <==> x < m by {
        if r.contains(x) {
            let i = choose|i: int| 0 <= i < r.len() && r[i] == x;
            assert(o[o.len() - 1 - i] == x);
            assert(o.contains(x));
        }
        if x < m {
            assert(o.contains(x));
            let i = choose|i: int| 0 <= i < o.len() && o[i] == x;
            assert(r[o.len() - 1 - i] == x);
            assert(r.contains(x));
        }
    }
    assert forall|i: int, j: int| 0 <= i < j < r.len() implies r[i] != r[j] by {
        assert(r[i] == o[o.len() - 1 - i]);
        assert(r[j] == o[o.len() - 1 - j]);
    }
}

/// A duplicate-free listing of exactly the values below `m` has length `m`.
proof fn lemma_order_len(order: Seq<usize>, m: nat)
    requires
        m <= usize::MAX,
        order.no_duplicates(),
        forall|x: usize| order.contains(x) <==> x < m,
    ensures
        order.len() == m,
{
    let s = order.map_values(|x: usize| x as int);
    assert forall|i: int| 0 <= i < s.len() implies 0 <= #[trigger] s[i] < m by {
        assert(order.contains(order[i]));
    }
    assert forall|i: int, j: int| 0 <= i < j < s.len() implies s[i] != s[j] by {
        assert(order[i] != order[j]);
    }
    crate::counting::lemma_distinct_below_len(s, m as int);
    if order.len() < m {
        let idx = Seq::new(m, |x: int| order.index_of(x as usize));
        assert forall|x: int| 0 <= x < idx.len() implies 0 <= #[trigger] idx[x] < order.len() by {
            assert(order.contains(x as usize));
        }
        assert forall|a: int, b: int| 0 <= a < b < idx.len() implies idx[a] != idx[b] by {
            assert(order.contains(a as usize));
            assert(order.contains(b as usize));
            assert(order[idx[a]] == a as usize);
            assert(order[idx[b]] == b as usize);
        }
        crate::counting::lemma_distinct_below_len(idx, order.len() as int);
    }
}

/// Pushing a new value keeps a sequence duplicate-free and adds exactly it.
proof fn lemma_push_new<T>(s: Seq<T>, v: T)
    requires
        s.no_duplicates(),
        !s.contains(v),
    ensures
        s.push(v).no_duplicates(),
        forall|x: T| s.push(v).contains(x) <==> (s.contains(x) || x == v),
{
    let t = s.push(v);
    assert forall|x: T| t.contains(x) <==> (s.contains(x) || x == v) by {
        if t.contains(x) {
            let i = choose|i: int| 0 <= i < t.len() && t[i] == x;
            if i < s.len() {
                assert(s[i] == x);
            }
        }
        if s.contains(x) {
            let i = choose|i: int| 0 <= i < s.len() && s[i] == x;
            assert(t[i] == x);
        }
        if x == v {
            assert(t[s.len() as int] == x);
        }
    }
    assert forall|i: int, j: int| 0 <= i < j < t.len() implies t[i] != t[j] by {
        if j == s.len() {
            assert(s.contains(s[i]));
        } else {
            assert(t[i] == s[i] && t[j] == s[j]);
        }
    }
}

/// `n` copies of `x`.
fn filled<T: Copy>(x: T, n: usize) -> (r: Vec<T>)
    ensures
        r@.len() == n,
        forall|i: int| 0 <= i < n ==> #[trigger] r@[i] == x,
{
    let mut r: Vec<T> = Vec::new();
    let mut i: usize = 0;
    while i < n
        invariant
            i <= n,
            r@.len() == i,
            forall|j: int| 0 <= j < i ==> #[trigger] r@[j] == x,
        decreases n - i,
    {
        r.push(x);
        i = i + 1;
    }
    r
}

/// The identifiers `0..m`.
pub open spec fn ids(m: nat) -> Seq<usize> {
    Seq::new(m, |i: int| i as usize)
}

fn id_list(m: usize) -> (r: Vec<usize>)
    ensures
        r@ == ids(m as nat),
{
    let mut r: Vec<usize> = Vec::new();
    let mut i: usize = 0;
    while i < m
        invariant
            i <= m,
            r@ == ids(i as nat),
        decreases m - i,
    {
        r.push(i);
        proof {
            assert(r@ =~= ids((i + 1) as nat));
        }
        i = i + 1;
    }
    r
}

proof fn lemma_ids(m: nat)
    requires
        m <= usize::MAX,
    ensures
        ids(m).no_duplicates(),
        forall|x: usize| ids(m).contains(x) <==> x < m,
{
    assert forall|i: int, j: int| 0 <= i < j < ids(m).len() implies ids(m)[i] != ids(m)[j] by {}
    assert forall|x: usize| ids(m).contains(x) <==> x < m by {
        if x < m {
            assert(ids(m)[x as int] == x);
        }
    }
}

/// The last index below `k` of a member of `sc` labelled `l`, if any.
pub open spec fn last_with(labels: Seq<Seq<char>>, sc: Seq<usize>, l: Seq<char>, k: int) -> Option<int>
    decreases k,
{
    if k <= 0 {
        None
    } else if labels[sc[k - 1] as int] == l {
        Some(k - 1)
    } else {
        last_with(labels, sc, l, k - 1)
    }
}

/// The members named by the first `j` entries of the pinned order `spec`,
/// in that order, each once (a name picks the last member carrying it).
pub open spec fn pin_listed(labels: Seq<Seq<char>>, sc: Seq<usize>, spec: Seq<Seq<char>>, j: int) -> Seq<usize>
    decreases j,
{
    if j <= 0 {
        Seq::empty()
    } else {
        let p = pin_listed(labels, sc, spec, j - 1);
        match last_with(labels, sc, spec[j - 1], sc.len() as int) {
            Some(id) => if p.contains(id as usize) { p } else { p.push(id as usize) },
            None => p,
        }
    }
}

/// The entries of `els` not in `listed`, in order.
pub open spec fn unlisted_in(els: Seq<usize>, listed: Seq<usize>) -> Seq<usize> {
    els.filter(not_listed(listed))
}

/// Not an entry of `listed`.
pub open spec fn not_listed(listed: Seq<usize>) -> spec_fn(usize) -> bool {
    |x: usize| !listed.contains(x)
}

/// The pinned order of a component: the members named by `spec`, in spec
/// order, then the others in the order `els`.
pub open spec fn pinned_list(labels: Seq<Seq<char>>, sc: Seq<usize>, spec: Seq<Seq<char>>, els: Seq<usize>) -> Seq<usize> {
    let listed = pin_listed(labels, sc, spec, spec.len() as int);
    listed + unlisted_in(els, listed)
}

proof fn lemma_last_with(labels: Seq<Seq<char>>, sc: Seq<usize>, l: Seq<char>, k: int)
    requires
        0 <= k <= sc.len(),
    ensures
        match last_with(labels, sc, l, k) {
            Some(x) => 0 <= x < k && labels[sc[x] as int] == l && forall|j: int| x < j < k ==> labels[#[trigger] sc[j] as int] != l,
            None => forall|j: int| 0 <= j < k ==> labels[#[trigger] sc[j] as int] != l,
        },
    decreases k,
{
    if k > 0 {
        lemma_last_with(labels, sc, l, k - 1);
    }
}

/// The last identifier whose node carries `label`, if any.
fn find_last(labels: &Vec<String>, sorted_comp: &Vec<usize>, label: &String) -> (r: Option<usize>)
    requires
        forall|i: int| 0 <= i < sorted_comp@.len() ==> (#[trigger] sorted_comp@[i]) < labels@.len(),
    ensures
        match r {
            Some(id) => id < sorted_comp@.len() && labels@[sorted_comp@[id as int] as int]@ == label@
                && forall|j: int| id < j < sorted_comp@.len() ==> labels@[(#[trigger] sorted_comp@[j]) as int]@ != label@,
            None => forall|j: int| 0 <= j < sorted_comp@.len() ==> labels@[(#[trigger] sorted_comp@[j]) as int]@ != label@,
        },
{
    let mut i: usize = sorted_comp.len();
    while i > 0
        invariant
            i <= sorted_comp@.len(),
            forall|i: int| 0 <= i < sorted_comp@.len() ==> (#[trigger] sorted_comp@[i]) < labels@.len(),
            forall|j: int| i <= j < sorted_comp@.len() ==> labels@[(#[trigger] sorted_comp@[j]) as int]@ != label@,
        decreases i,
    {
        i = i - 1;
        if labels[sorted_comp[i]] == *label {
            return Some(i);
        }
    }
    None
}

/// Where `l` first appears in the pinned order `spec`; `spec.len()` when it
/// is not named there.
pub open spec fn pin_rank(spec: Seq<Seq<char>>, l: Seq<char>) -> int
    decreases spec.len(),
{
    if spec.len() == 0 {
        0
    } else if spec[0] == l {
        0
    } else {
        1 + pin_rank(spec.drop_first(), l)
    }
}

proof fn lemma_pin_rank(spec: Seq<Seq<char>>, l: Seq<char>)
    ensures
        0 <= pin_rank(spec, l) <= spec.len(),
        pin_rank(spec, l) < spec.len() ==> spec[pin_rank(spec, l)] == l,
        forall|j: int| 0 <= j < pin_rank(spec, l) ==> spec[j] != l,
    decreases spec.len(),
{
    if spec.len() > 0 && spec[0] != l {
        lemma_pin_rank(spec.drop_first(), l);
        assert forall|j: int| 0 <= j < pin_rank(spec, l) implies spec[j] != l by {
            if j > 0 {
                assert(spec[j] == spec.drop_first()[j - 1]);
            }
        }
    }
}

/// The pinned rank of the member with local identifier `x`.
pub open spec fn local_rank(labels: Seq<String>, sc: Seq<usize>, spec: Seq<Seq<char>>, x: usize) -> int {
    pin_rank(spec, labels[sc[x as int] as int]@)
}

/// The members' labels are pairwise different.
pub open spec fn local_labels_distinct(labels: Seq<String>, sc: Seq<usize>) -> bool {
    forall|x: int, y: int| 0 <= x < sc.len() && 0 <= y < sc.len() && x != y
        ==> labels[#[trigger] sc[x] as int]@ != labels[#[trigger] sc[y] as int]@
}

/// Build a pinned vertex order from a user `--respect-order` spec: the named
/// modules present in this SCC first, in spec order, then the unlisted ones
/// in their computed foundation-first order. The result is a permutation of
/// `nodes`; where the members' labels differ, it is sorted by pinned rank.
fn pinned_order(
    labels: &Vec<String>,
    sorted_comp: &Vec<usize>,
    nodes: &Vec<usize>,
    weighted: &Vec<WeightedEdge>,
    spec: &[String],
) -> (r: Vec<usize>)
    requires
        nodes@ == ids(sorted_comp@.len()),
        forall|i: int| 0 <= i < sorted_comp@.len() ==> (#[trigger] sorted_comp@[i]) < labels@.len(),
        total_weight(weighted@) <= i64::MAX,
    ensures
        is_order(r@, sorted_comp@.len()),
        local_labels_distinct(labels@, sorted_comp@) ==> forall|p: int, q: int| 0 <= p < q < r@.len()
            ==> local_rank(labels@, sorted_comp@, views(spec@), #[trigger] r@[p]) <= local_rank(labels@, sorted_comp@, views(spec@), #[trigger] r@[q]),
        r@ == pinned_list(views(labels@), sorted_comp@, views(spec@), els_order(nodes@, weighted@).reverse()),
{
    let ghost sv = views(spec@);
    let ghost dl = local_labels_distinct(labels@, sorted_comp@);
    let m = sorted_comp.len();
    let mut placed = filled(false, m);
    let mut order: Vec<usize> = Vec::new();
    proof {
        assert forall|x: usize| #[trigger] local_rank(labels@, sorted_comp@, sv, x) >= 0 by {
            lemma_pin_rank(sv, labels@[sorted_comp@[x as int] as int]@);
        }
    }
    let mut j: usize = 0;
    while j < spec.len()
        invariant
            sv == views(spec@),
            dl == local_labels_distinct(labels@, sorted_comp@),
            m == sorted_comp@.len(),
            forall|i: int| 0 <= i < sorted_comp@.len() ==> (#[trigger] sorted_comp@[i]) < labels@.len(),
            j <= spec@.len(),
            placed@.len() == m,
            order@.no_duplicates(),
            forall|x: usize| order@.contains(x) ==> x < m,
            forall|x: int| 0 <= x < m ==> (placed@[x] <==> order@.contains(x as usize)),
            dl ==> forall|p: int, q: int| 0 <= p < q < order@.len()
                ==> local_rank(labels@, sorted_comp@, sv, #[trigger] order@[p]) < local_rank(labels@, sorted_comp@, sv, #[trigger] order@[q]),
            dl ==> forall|p: int| 0 <= p < order@.len() ==> local_rank(labels@, sorted_comp@, sv, #[trigger] order@[p]) < j,
            dl ==> forall|x: usize| x < m && #[trigger] local_rank(labels@, sorted_comp@, sv, x) < j ==> order@.contains(x),
            order@ == pin_listed(views(labels@), sorted_comp@, sv, j as int),
        decreases spec@.len() - j,
    {
        proof {
            assert(sv[j as int] == spec@[j as int]@);
        }
        let found = find_last(labels, sorted_comp, &spec[j]);
        proof {
            let lv = views(labels@);
            let l = sv[j as int];
            lemma_last_with(lv, sorted_comp@, l, m as int);
            assert forall|x: int| 0 <= x < m implies #[trigger] lv[sorted_comp@[x] as int] == labels@[sorted_comp@[x] as int]@ by {}
            match last_with(lv, sorted_comp@, l, m as int) {
                Some(x) => {
                    assert(lv[sorted_comp@[x] as int] == l);
                    match found {
                        Some(id) => {
                            assert(lv[sorted_comp@[id as int] as int] == l);
                            if (id as int) < x {
                                assert(labels@[sorted_comp@[x] as int]@ != spec@[j as int]@);
                            }
                            if x < id as int {
                                assert(lv[sorted_comp@[id as int] as int] != l);
                            }
                        },
                        None => {
                            assert(labels@[sorted_comp@[x] as int]@ != spec@[j as int]@);
                        },
                    }
                },
                None => {
                    match found {
                        Some(id) => {
                            assert(lv[sorted_comp@[id as int] as int] != l);
                        },
                        None => {},
                    }
                },
            }
            assert(match last_with(lv, sorted_comp@, l, m as int) {
                Some(x) => found == Some(x as usize),
                None => found is None,
            });
        }
        match found {
            Some(id) => {
                proof {
                    lemma_pin_rank(sv, labels@[sorted_comp@[id as int] as int]@);
                }
                if !placed[id] {
                    let ghost before = order@;
                    proof {
                        lemma_push_new(order@, id);
                    }
                    placed[id] = true;
                    order.push(id);
                    proof {
                        assert(order@ == before.push(id));
                        assert forall|x: usize| order@.contains(x) implies x < m by {
                            assert(before.push(id).contains(x));
                            assert(id < m);
                            assert(before.contains(x) || x == id);
                        }
                        if dl {
                            assert(local_rank(labels@, sorted_comp@, sv, id) == j);
                            assert forall|p: int, q: int| 0 <= p < q < order@.len()
                                implies local_rank(labels@, sorted_comp@, sv, #[trigger] order@[p]) < local_rank(labels@, sorted_comp@, sv, #[trigger] order@[q]) by {
                                if q == order@.len() - 1 {
                                    assert(order@[p] == before[p]);
                                } else {
                                    assert(order@[p] == before[p]);
                                    assert(order@[q] == before[q]);
                                }
                            }
                            assert forall|p: int| 0 <= p < order@.len() implies local_rank(labels@, sorted_comp@, sv, #[trigger] order@[p]) < j + 1 by {
                                if p < before.len() {
                                    assert(order@[p] == before[p]);
                                }
                            }
                            assert forall|x: usize| x < m && #[trigger] local_rank(labels@, sorted_comp@, sv, x) < j + 1 implies order@.contains(x) by {
                                if local_rank(labels@, sorted_comp@, sv, x) == j {
                                    lemma_pin_rank(sv, labels@[sorted_comp@[x as int] as int]@);
                                    if x != id {
                                        assert(labels@[sorted_comp@[x as int] as int]@ != labels@[sorted_comp@[id as int] as int]@);
                                    }
                                    assert(order@[order@.len() - 1] == id);
                                } else {
                                    assert(before.contains(x));
                                }
                            }
                        }
                    }
                } else {
                    proof {
                        if dl {
                            assert forall|x: usize| x < m && #[trigger] local_rank(labels@, sorted_comp@, sv, x) < j + 1 implies order@.contains(x) by {
                                if local_rank(labels@, sorted_comp@, sv, x) == j {
                                    lemma_pin_rank(sv, labels@[sorted_comp@[x as int] as int]@);
                                    if x != id {
                                        assert(labels@[sorted_comp@[x as int] as int]@ != labels@[sorted_comp@[id as int] as int]@);
                                    }
                                }
                            }
                        }
                    }
                }
            },
            None => {
                proof {
                    if dl {
                        assert forall|x: usize| x < m && #[trigger] local_rank(labels@, sorted_comp@, sv, x) < j + 1 implies order@.contains(x) by {
                            if local_rank(labels@, sorted_comp@, sv, x) == j {
                                lemma_pin_rank(sv, labels@[sorted_comp@[x as int] as int]@);
                                assert(labels@[(sorted_comp@[x as int]) as int]@ != spec@[j as int]@);
                            }
                        }
                    }
                }
            },
        }
        j = j + 1;
    }
    proof {
        lemma_ids(m as nat);
    }
    proof {
        crate::fas::lemma_counted_weight_bound(nodes@, weighted@);
    }
    let o = min_fas_order(nodes.as_slice(), weighted.as_slice());
    proof {
        assert(is_order(o@, m as nat));
        lemma_reverse_order(o@, m as nat);
    }
    let els = reversed(o);
    let ghost listed = order@;
    let mut i: usize = 0;
    while i < els.len()
        invariant
            listed == pin_listed(views(labels@), sorted_comp@, sv, sv.len() as int),
            order@ == listed + unlisted_in(els@.take(i as int), listed),
            sv == views(spec@),
            dl == local_labels_distinct(labels@, sorted_comp@),
            m == sorted_comp@.len(),
            forall|i: int| 0 <= i < sorted_comp@.len() ==> (#[trigger] sorted_comp@[i]) < labels@.len(),
            is_order(els@, m as nat),
            i <= els@.len(),
            placed@.len() == m,
            order@.no_duplicates(),
            forall|x: usize| order@.contains(x) ==> x < m,
            forall|x: int| 0 <= x < m ==> (placed@[x] <==> order@.contains(x as usize)),
            forall|k: int| 0 <= k < i ==> order@.contains(#[trigger] els@[k]),
            dl ==> forall|p: int, q: int| 0 <= p < q < order@.len()
                ==> local_rank(labels@, sorted_comp@, sv, #[trigger] order@[p]) <= local_rank(labels@, sorted_comp@, sv, #[trigger] order@[q]),
            dl ==> forall|x: usize| x < m && #[trigger] local_rank(labels@, sorted_comp@, sv, x) < sv.len() ==> order@.contains(x),
        decreases els@.len() - i,
    {
        let id = els[i];
        assert(els@.contains(id));
        let ghost u0 = unlisted_in(els@.take(i as int), listed);
        proof {
            let pred = not_listed(listed);
            assert(els@.take(i + 1).drop_last() =~= els@.take(i as int));
            assert(els@.take(i + 1).last() == id);
            reveal(Seq::filter);
            assert(unlisted_in(els@.take(i + 1), listed) == (if pred(id) { u0.push(id) } else { u0 }));
            if u0.contains(id) {
                els@.take(i as int).lemma_filter_contains_rev(pred, id);
                let q = choose|q: int| 0 <= q < i && els@.take(i as int)[q] == id;
                assert(els@[q] == els@[i as int]);
            }
            if order@.contains(id) {
                let q = choose|q: int| 0 <= q < order@.len() && order@[q] == id;
                if q >= listed.len() {
                    assert(u0[q - listed.len()] == id);
                    assert(u0.contains(id));
                } else {
                    assert(listed[q] == id);
                }
            }
            if listed.contains(id) {
                let q = choose|q: int| 0 <= q < listed.len() && listed[q] == id;
                assert(order@[q] == id);
            }
            assert(order@.contains(id) <==> listed.contains(id));
        }
        if !placed[id] {
            let ghost before = order@;
            proof {
                lemma_push_new(order@, id);
            }
            placed[id] = true;
            order.push(id);
            proof {
                assert(order@ == before.push(id));
                assert(before.push(id) =~= listed + u0.push(id));
                assert forall|x: usize| order@.contains(x) implies x < m by {
                    assert(before.push(id).contains(x));
                    assert(id < m);
                    assert(before.contains(x) || x == id);
                }
                if dl {
                    lemma_pin_rank(sv, labels@[sorted_comp@[id as int] as int]@);
                    assert(local_rank(labels@, sorted_comp@, sv, id) == sv.len());
                    assert forall|p: int, q: int| 0 <= p < q < order@.len()
                        implies local_rank(labels@, sorted_comp@, sv, #[trigger] order@[p]) <= local_rank(labels@, sorted_comp@, sv, #[trigger] order@[q]) by {
                        assert(order@[p] == before[p] || p == before.len());
                        lemma_pin_rank(sv, labels@[sorted_comp@[order@[p] as int] as int]@);
                        if q < before.len() {
                            assert(order@[p] == before[p]);
                            assert(order@[q] == before[q]);
                        }
                    }
                    assert forall|x: usize| x < m && #[trigger] local_rank(labels@, sorted_comp@, sv, x) < sv.len() implies order@.contains(x) by {
                        assert(before.contains(x));
                    }
                }
            }
        }
        i = i + 1;
    }
    proof {
        assert(els@.take(els@.len() as int) =~= els@);
        assert forall|x: usize| order@.contains(x) <==> x < m by {
            if x < m {
                assert(els@.contains(x));
                let k = choose|k: int| 0 <= k < els@.len() && els@[k] == x;
                assert(order@.contains(els@[k]));
            }
        }
        lemma_order_len(order@, m as nat);
    }
    order
}

/// A permutation of `0..m` covers every value below `m`.
proof fn lemma_perm_onto(perm: Seq<int>, m: int, x: int)
    requires
        perm.len() == m,
        perm.no_duplicates(),
        forall|i: int| 0 <= i < perm.len() ==> 0 <= #[trigger] perm[i] < m,
        0 <= x < m,
    ensures
        exists|i: int| 0 <= i < perm.len() && perm[i] == x,
{
    crate::counting::lemma_distinct_below_full(perm, m, x);
}

/// The component's members sorted by label, and for every node its position
/// in that sorted list (`m`, the member count, for non-members).
fn comp_ids(labels: &Vec<String>, comp: &Vec<usize>, n: usize) -> (r: (Vec<usize>, Vec<usize>))
    requires
        labels@.len() == n,
        comp@.no_duplicates(),
        forall|i: int| 0 <= i < comp@.len() ==> (#[trigger] comp@[i]) < n,
    ensures
        r.0@.len() == comp@.len(),
        r.0@.no_duplicates(),
        forall|v: usize| r.0@.contains(v) <==> comp@.contains(v),
        forall|i: int| 0 <= i < r.0@.len() ==> (#[trigger] r.0@[i]) < n,
        r.1@.len() == n,
        forall|v: int| 0 <= v < n ==> ((#[trigger] r.1@[v] < comp@.len()) <==> comp@.contains(v as usize)),
        forall|v: int| 0 <= v < n && r.1@[v] < comp@.len() ==> r.0@[#[trigger] r.1@[v] as int] == v,
        forall|j: int| 0 <= j < r.0@.len() ==> r.1@[(#[trigger] r.0@[j]) as int] == j,
        forall|i: int, j: int| 0 <= i < j < r.0@.len()
            ==> !seq_lt(labels@[(#[trigger] r.0@[j]) as int]@, labels@[(#[trigger] r.0@[i]) as int]@),
{
    let m = comp.len();
    let mut keyed: Vec<Keyed> = Vec::new();
    let mut i: usize = 0;
    while i < m
        invariant
            m == comp@.len(),
            labels@.len() == n,
            forall|i: int| 0 <= i < comp@.len() ==> (#[trigger] comp@[i]) < n,
            i <= m,
            keyed@.len() == i,
            forall|j: int| 0 <= j < i ==> (#[trigger] keyed@[j]).node == comp@[j],
            forall|j: int| 0 <= j < i ==> (#[trigger] keyed@[j]).label@ == labels@[comp@[j] as int]@,
        decreases m - i,
    {
        keyed.push(Keyed { label: labels[comp[i]].clone(), node: comp[i] });
        i = i + 1;
    }
    let ghost kseq = keyed@;
    let sorted = stable_sort(keyed);
    let ghost mut perm: Seq<int> = Seq::empty();
    proof {
        perm = lemma_stable_sorted_perm(kseq);
        assert forall|a: Keyed| kseq.contains(a) implies !(#[trigger] a.key_lt(a)) by {
            crate::text::lemma_seq_lt_irreflexive(a.label@);
        }
        assert forall|a: Keyed, b: Keyed, c: Keyed| kseq.contains(a) && kseq.contains(b) && kseq.contains(c)
            && #[trigger] a.key_lt(b) && #[trigger] b.key_lt(c) implies a.key_lt(c) by {
            crate::text::lemma_seq_lt_transitive(a.label@, b.label@, c.label@);
        }
        lemma_stable_sorted_sorted(kseq);
    }
    let mut sorted_comp: Vec<usize> = Vec::new();
    let mut j: usize = 0;
    while j < m
        invariant
            m == comp@.len(),
            sorted@.len() == m,
            rearranged(kseq, sorted@, perm),
            forall|j: int| 0 <= j < m ==> (#[trigger] kseq[j]).node == comp@[j],
            j <= m,
            sorted_comp@.len() == j,
            forall|i: int| 0 <= i < j ==> sorted_comp@[i] == comp@[#[trigger] perm[i]],
            forall|i: int| 0 <= i < j ==> sorted_comp@[i] == (#[trigger] sorted@[i]).node,
            forall|i: int| 0 <= i < m ==> (#[trigger] kseq[i]).label@ == labels@[comp@[i] as int]@,
        decreases m - j,
    {
        sorted_comp.push(sorted[j].node);
        proof {
            assert(sorted@[j as int] == kseq[perm[j as int]]);
        }
        j = j + 1;
    }
    proof {
        assert forall|a: int, b: int| 0 <= a < b < sorted_comp@.len() implies sorted_comp@[a] != sorted_comp@[b] by {
            assert(perm[a] != perm[b]);
            assert(sorted_comp@[a] == comp@[perm[a]]);
            assert(sorted_comp@[b] == comp@[perm[b]]);
        }
        assert forall|v: usize| sorted_comp@.contains(v) <==> comp@.contains(v) by {
            if sorted_comp@.contains(v) {
                let a = choose|a: int| 0 <= a < sorted_comp@.len() && sorted_comp@[a] == v;
                assert(sorted_comp@[a] == comp@[perm[a]]);
                assert(comp@.contains(v));
            }
            if comp@.contains(v) {
                let x = choose|x: int| 0 <= x < comp@.len() && comp@[x] == v;
                lemma_perm_onto(perm, m as int, x);
                let a = choose|a: int| 0 <= a < perm.len() && perm[a] == x;
                assert(sorted_comp@[a] == v);
                assert(sorted_comp@.contains(v));
            }
        }
        assert forall|i: int| 0 <= i < sorted_comp@.len() implies (#[trigger] sorted_comp@[i]) < n by {
            assert(sorted_comp@[i] == comp@[perm[i]]);
        }
    }
    let mut to_id = filled(m, n);
    let mut q: usize = 0;
    while q < m
        invariant
            m == comp@.len(),
            sorted_comp@.len() == m,
            sorted_comp@.no_duplicates(),
            forall|i: int| 0 <= i < sorted_comp@.len() ==> (#[trigger] sorted_comp@[i]) < n,
            q <= m,
            to_id@.len() == n,
            forall|i: int| 0 <= i < q ==> to_id@[(#[trigger] sorted_comp@[i]) as int] == i,
            forall|v: int| 0 <= v < n ==> (#[trigger] to_id@[v] == m || (to_id@[v] < q && sorted_comp@[to_id@[v] as int] == v)),
        decreases m - q,
    {
        let v = sorted_comp[q];
        to_id[v] = q;
        proof {
            assert forall|i: int| 0 <= i < q + 1 implies to_id@[(#[trigger] sorted_comp@[i]) as int] == i by {
                if i < q {
                    assert(sorted_comp@[i] != sorted_comp@[q as int]);
                }
            }
        }
        q = q + 1;
    }
    proof {
        assert forall|v: int| 0 <= v < n implies ((#[trigger] to_id@[v] < m) <==> comp@.contains(v as usize)) by {
            if to_id@[v] < m {
                assert(sorted_comp@[to_id@[v] as int] == v);
                assert(sorted_comp@.contains(v as usize));
            }
            if comp@.contains(v as usize) {
                assert(sorted_comp@.contains(v as usize));
                let a = choose|a: int| 0 <= a < sorted_comp@.len() && sorted_comp@[a] == v as usize;
                assert(to_id@[sorted_comp@[a] as int] == a);
            }
        }
    }
    proof {
        assert forall|i: int, j: int| 0 <= i < j < sorted_comp@.len()
            implies !seq_lt(labels@[(#[trigger] sorted_comp@[j]) as int]@, labels@[(#[trigger] sorted_comp@[i]) as int]@) by {
            assert(sorted@[i] == kseq[perm[i]]);
            assert(sorted@[j] == kseq[perm[j]]);
            assert(!sorted@[j].key_lt(sorted@[i]));
        }
    }
    (sorted_comp, to_id)
}

/// The edges among the component's members (self-loops excluded), in edge
/// order, between member positions `to_id`, weighted by occurrence count.
pub open spec fn intra_edges(edges: Seq<(usize, usize, EdgeWeight)>, to_id: Seq<usize>, m: int) -> Seq<WeightedEdge>
    decreases edges.len(),
{
    if edges.len() == 0 {
        Seq::empty()
    } else {
        let prev = intra_edges(edges.drop_last(), to_id, m);
        let e = edges.last();
        if e.0 != e.1 && to_id[e.0 as int] < m && to_id[e.1 as int] < m {
            prev.push(WeightedEdge { from: to_id[e.0 as int], to: to_id[e.1 as int], weight: e.2@.len() as u64 })
        } else {
            prev
        }
    }
}

/// The edges among the members `sc` of a component (self-loops excluded), in
/// edge order, between positions in `sc`, weighted by occurrence count.
pub open spec fn member_edges(edges: Seq<(usize, usize, EdgeWeight)>, sc: Seq<usize>) -> Seq<WeightedEdge>
    decreases edges.len(),
{
    if edges.len() == 0 {
        Seq::empty()
    } else {
        let prev = member_edges(edges.drop_last(), sc);
        let e = edges.last();
        if e.0 != e.1 && sc.contains(e.0) && sc.contains(e.1) {
            prev.push(WeightedEdge { from: pos_in(sc, e.0) as usize, to: pos_in(sc, e.1) as usize, weight: e.2@.len() as u64 })
        } else {
            prev
        }
    }
}

/// `sc` lists the members of `comp` once each, ordered by label.
pub open spec fn label_sorted_members(labels: Seq<Seq<char>>, comp: Seq<usize>, sc: Seq<usize>) -> bool {
    &&& sc.len() == comp.len()
    &&& sc.no_duplicates()
    &&& forall|v: usize| sc.contains(v) <==> comp.contains(v)
    &&& forall|i: int, j: int| 0 <= i < j < sc.len() ==> !seq_lt(labels[(#[trigger] sc[j]) as int], labels[(#[trigger] sc[i]) as int])
}

/// The default order of a component whose members, by label, are `sc`:
/// member positions in the Eades–Lin–Smyth order of the component's edges,
/// reversed to put the foundation first.
pub open spec fn default_comp_order(mg: ModuleGraph, sc: Seq<usize>) -> Seq<usize> {
    els_order(ids(sc.len()), member_edges(graph_edges(mg.graph), sc)).reverse()
}

/// Every member `sc[j]` sits at the index of `j` in `ord`.
pub open spec fn follows_order(gpos: Seq<int>, sc: Seq<usize>, ord: Seq<usize>) -> bool {
    forall|j: int| 0 <= j < sc.len() ==> 0 <= #[trigger] gpos[sc[j] as int] < ord.len() && ord[gpos[sc[j] as int]] == j
}

/// The pinned order given by the caller, as label views.
pub open spec fn pin_of(respect_order: Option<&[String]>) -> Option<Seq<Seq<char>>> {
    match respect_order {
        Some(spec) => Some(views(spec@)),
        None => None,
    }
}

/// The order of a component whose members, by label, are `sc`: the default
/// order, or under a pinned order the members it names first, in its order,
/// then the others in the default order.
pub open spec fn comp_order(mg: ModuleGraph, sc: Seq<usize>, pin: Option<Seq<Seq<char>>>) -> Seq<usize> {
    match pin {
        None => default_comp_order(mg, sc),
        Some(spec) => pinned_list(mg.labels(), sc, spec, default_comp_order(mg, sc)),
    }
}

/// The positions of the members of `comp` are those of its order.
pub open spec fn ordered_positions(mg: ModuleGraph, comp: Seq<usize>, gpos: Seq<int>, pin: Option<Seq<Seq<char>>>) -> bool {
    exists|sc: Seq<usize>| label_sorted_members(mg.labels(), comp, sc) && is_order(comp_order(mg, sc, pin), sc.len())
        && follows_order(gpos, sc, #[trigger] comp_order(mg, sc, pin))
}

/// Every multi-module raw component is placed by its order.
pub open spec fn ordered_by(mg: ModuleGraph, raw: Seq<Seq<usize>>, gpos: Seq<int>, pin: Option<Seq<Seq<char>>>) -> bool {
    forall|c: int| 0 <= c < raw.len() && raw[c].len() > 1 ==> #[trigger] ordered_positions(mg, raw[c], gpos, pin)
}

/// The index of `x` in `ord`.
pub open spec fn rank_in(ord: Seq<usize>, x: usize) -> int {
    choose|i: int| 0 <= i < ord.len() && ord[i] == x
}

/// Edge `k` joins two members of `sc` and points from a member to one placed
/// later in `ord` (a dependency on a less foundational module).
pub open spec fn backward_in(mg: ModuleGraph, sc: Seq<usize>, ord: Seq<usize>, k: int) -> bool {
    let e = mg.ends()[k];
    &&& 0 <= k < mg.ends().len()
    &&& e.0 != e.1
    &&& sc.contains(e.0)
    &&& sc.contains(e.1)
    &&& rank_in(ord, pos_in(sc, e.0) as usize) < rank_in(ord, pos_in(sc, e.1) as usize)
}

/// `be` reports an edge of `mg` that points backward in `ord`.
pub open spec fn reports_backward(be: BackEdge, mg: ModuleGraph, sc: Seq<usize>, ord: Seq<usize>) -> bool {
    exists|k: int| #[trigger] backward_in(mg, sc, ord, k) && reports_edge(be, mg, k, be.scc)
}

proof fn lemma_positions_agree(mg: ModuleGraph, comp: Seq<usize>, g1: Seq<int>, g2: Seq<int>, pin: Option<Seq<Seq<char>>>)
    requires
        ordered_positions(mg, comp, g1, pin),
        forall|v: usize| comp.contains(v) ==> g1[v as int] == g2[v as int],
    ensures
        ordered_positions(mg, comp, g2, pin),
{
    let sc = choose|sc: Seq<usize>| label_sorted_members(mg.labels(), comp, sc) && is_order(comp_order(mg, sc, pin), sc.len())
        && follows_order(g1, sc, #[trigger] comp_order(mg, sc, pin));
    assert forall|j: int| 0 <= j < sc.len() implies #[trigger] g2[sc[j] as int] == g1[sc[j] as int] by {
        assert(sc.contains(sc[j]));
    }
    assert(follows_order(g2, sc, comp_order(mg, sc, pin)));
}

proof fn lemma_member_edges(edges: Seq<(usize, usize, EdgeWeight)>, to_id: Seq<usize>, sc: Seq<usize>, m: int)
    requires
        sc.len() == m,
        sc.no_duplicates(),
        forall|k: int| 0 <= k < edges.len() ==> (#[trigger] edges[k]).0 < to_id.len() && edges[k].1 < to_id.len(),
        forall|v: int| 0 <= v < to_id.len() ==> (#[trigger] to_id[v] < m <==> sc.contains(v as usize)),
        forall|v: int| 0 <= v < to_id.len() && to_id[v] < m ==> sc[#[trigger] to_id[v] as int] == v,
    ensures
        intra_edges(edges, to_id, m) == member_edges(edges, sc),
    decreases edges.len(),
{
    if edges.len() > 0 {
        lemma_member_edges(edges.drop_last(), to_id, sc, m);
        let e = edges.last();
        assert(edges[edges.len() - 1] == e);
        if to_id[e.0 as int] < m {
            crate::fas::lemma_pos_in(sc, to_id[e.0 as int] as int);
        }
        if to_id[e.1 as int] < m {
            crate::fas::lemma_pos_in(sc, to_id[e.1 as int] as int);
        }
    }
}

/// The component's internal edges (self-loops excluded) as weighted edges
/// between member positions, weighted by occurrence count.
fn intra_weights(mg: &ModuleGraph, to_id: &Vec<usize>, m: usize) -> (r: Vec<WeightedEdge>)
    requires
        to_id@.len() == mg.nodes().len(),
    ensures
        r@ == intra_edges(graph_edges(mg.graph), to_id@, m as int),
        total_weight(r@) <= occurrence_total(*mg),
{
    let e = graph_edge_count(&mg.graph);
    let ghost sizes = edge_sizes(mg.graph);
    let mut weighted: Vec<WeightedEdge> = Vec::new();
    let mut k: usize = 0;
    while k < e
        invariant
            e == graph_edges(mg.graph).len(),
            sizes == edge_sizes(mg.graph),
            to_id@.len() == mg.nodes().len(),
            k <= e,
            total_weight(weighted@) <= seq_sum(sizes.take(k as int)),
            weighted@ == intra_edges(graph_edges(mg.graph).take(k as int), to_id@, m as int),
        decreases e - k,
    {
        let (s, t) = graph_edge_ends(&mg.graph, k);
        proof {
            assert(sizes.take(k + 1).drop_last() =~= sizes.take(k as int));
            assert(graph_edges(mg.graph).take(k + 1).drop_last() =~= graph_edges(mg.graph).take(k as int));
            assert(graph_edges(mg.graph).take(k + 1).last() == graph_edges(mg.graph)[k as int]);
        }
        if s != t && to_id[s] < m && to_id[t] < m {
            let w = graph_edge_weight(&mg.graph, k);
            let ghost before = weighted@;
            weighted.push(WeightedEdge { from: to_id[s], to: to_id[t], weight: w.len() as u64 });
            proof {
                assert(weighted@.drop_last() =~= before);
            }
        }
        k = k + 1;
    }
    proof {
        assert(sizes.take(e as int) =~= sizes);
        assert(graph_edges(mg.graph).take(e as int) =~= graph_edges(mg.graph));
    }
    weighted
}

/// For each value of the order, its position in it.
fn positions(order: &Vec<usize>, m: usize) -> (r: Vec<usize>)
    requires
        is_order(order@, m as nat),
    ensures
        r@.len() == m,
        forall|x: int| 0 <= x < m ==> #[trigger] r@[x] < m && order@[r@[x] as int] == x,
{
    let mut pos = filled(0usize, m);
    let mut i: usize = 0;
    while i < m
        invariant
            is_order(order@, m as nat),
            i <= m,
            pos@.len() == m,
            forall|j: int| 0 <= j < i ==> pos@[(#[trigger] order@[j]) as int] == j,
        decreases m - i,
    {
        proof {
            assert(order@.contains(order@[i as int]));
        }
        let v = order[i];
        let ghost before = pos@;
        pos[v] = i;
        proof {
            assert(pos@ == before.update(v as int, i));
            assert forall|j: int| 0 <= j < i + 1 implies pos@[(#[trigger] order@[j]) as int] == j by {
                if j < i {
                    assert(order@[j] != order@[i as int]);
                    assert(before[order@[j] as int] == j);
                    assert(order@.contains(order@[j]));
                }
            }
        }
        i = i + 1;
    }
    proof {
        assert forall|x: int| 0 <= x < m implies #[trigger] pos@[x] < m && order@[pos@[x] as int] == x by {
            assert(order@.contains(x as usize));
            let j = choose|j: int| 0 <= j < order@.len() && order@[j] == x as usize;
            assert(pos@[order@[j] as int] == j);
        }
    }
    pos
}

/// Edge `e` points to a node later in the order than its source.
pub open spec fn upward(gpos: Seq<int>, e: (usize, usize)) -> bool {
    gpos[e.1 as int] > gpos[e.0 as int]
}

/// The order position of every node of the graph (-1 outside the component).
pub open spec fn node_positions(to_id: Seq<usize>, pos: Seq<usize>, m: nat) -> Seq<int> {
    Seq::new(to_id.len(), |v: int| if to_id[v] < m { pos[to_id[v] as int] as int } else { -1 })
}

/// The upward internal edges, in edge order, with the edge index of each.
fn collect_upward(
    mg: &ModuleGraph,
    labels: &Vec<String>,
    comp: Ghost<Seq<usize>>,
    to_id: &Vec<usize>,
    pos: &Vec<usize>,
    scc_index: usize,
) -> (r: (Vec<BackEdge>, Ghost<Seq<int>>))
    requires
        views(labels@) == mg.labels(),
        to_id@.len() == mg.nodes().len(),
        pos@.len() == comp@.len(),
        forall|v: int| 0 <= v < mg.nodes().len() ==> ((#[trigger] to_id@[v] < comp@.len()) <==> comp@.contains(v as usize)),
    ensures
        r.1@.len() == r.0@.len(),
        r.1@.no_duplicates(),
        forall|i: int| 0 <= i < r.0@.len() ==> inner_edge(*mg, comp@, #[trigger] r.1@[i])
            && reports_edge(r.0@[i], *mg, r.1@[i], scc_index)
            && upward(node_positions(to_id@, pos@, comp@.len()), mg.ends()[r.1@[i]]),
        forall|k: int| inner_edge(*mg, comp@, k) && upward(node_positions(to_id@, pos@, comp@.len()), mg.ends()[k])
            ==> r.1@.contains(k),
        forall|i: int, j: int| 0 <= i < j < r.1@.len() ==> r.1@[i] < r.1@[j],
{
    let m = pos.len();
    let e = graph_edge_count(&mg.graph);
    let ghost gpos = node_positions(to_id@, pos@, comp@.len());
    let mut out: Vec<BackEdge> = Vec::new();
    let ghost mut src: Seq<int> = Seq::empty();
    let mut k: usize = 0;
    while k < e
        invariant
            views(labels@) == mg.labels(),
            to_id@.len() == mg.nodes().len(),
            m == comp@.len(),
            pos@.len() == m,
            gpos == node_positions(to_id@, pos@, comp@.len()),
            forall|v: int| 0 <= v < mg.nodes().len() ==> ((#[trigger] to_id@[v] < comp@.len()) <==> comp@.contains(v as usize)),
            e == graph_edges(mg.graph).len(),
            k <= e,
            src.len() == out@.len(),
            forall|i: int, j: int| 0 <= i < j < src.len() ==> src[i] < src[j],
            forall|i: int| 0 <= i < out@.len() ==> #[trigger] src[i] < k && inner_edge(*mg, comp@, src[i])
                && reports_edge(out@[i], *mg, src[i], scc_index) && upward(gpos, mg.ends()[src[i]]),
            forall|kk: int| 0 <= kk < k && inner_edge(*mg, comp@, kk) && upward(gpos, mg.ends()[kk]) ==> src.contains(kk),
        decreases e - k,
    {
        let (s, t) = graph_edge_ends(&mg.graph, k);
        proof {
            assert(mg.ends()[k as int] == (s, t));
        }
        if s != t && to_id[s] < m && to_id[t] < m && pos[to_id[t]] > pos[to_id[s]] {
            let be = make_back_edge(mg, labels, k, scc_index);
            out.push(be);
            proof {
                let old_src = src;
                src = src.push(k as int);
                assert(src.contains(k as int)) by {
                    assert(src[src.len() - 1] == k);
                }
                assert forall|kk: int| 0 <= kk < k + 1 && inner_edge(*mg, comp@, kk) && upward(gpos, mg.ends()[kk]) implies src.contains(kk) by {
                    if kk < k {
                        assert(old_src.contains(kk));
                        let i = choose|i: int| 0 <= i < old_src.len() && old_src[i] == kk;
                        assert(src[i] == kk);
                    }
                }
            }
        } else {
            proof {
                assert forall|kk: int| 0 <= kk < k + 1 && inner_edge(*mg, comp@, kk) && upward(gpos, mg.ends()[kk]) implies src.contains(kk) by {
                    if kk == k {
                        assert(false);
                    }
                }
            }
        }
        k = k + 1;
    }
    proof {
        assert forall|i: int, j: int| 0 <= i < j < src.len() implies src[i] != src[j] by {
            assert(src[i] < src[j]);
        }
    }
    (out, Ghost(src))
}

/// Sort cuts cheapest first, carrying along the edge index of each.
fn sort_cuts(out: Vec<BackEdge>, src: Ghost<Seq<int>>) -> (r: (Vec<BackEdge>, Ghost<Seq<int>>, Ghost<Seq<int>>))
    requires
        src@.len() == out@.len(),
        src@.no_duplicates(),
    ensures
        r.0@ == stable_sorted(out@),
        rearranged(out@, r.0@, r.2@),
        r.1@.len() == r.0@.len(),
        r.1@.no_duplicates(),
        forall|i: int| 0 <= i < r.0@.len() ==> #[trigger] r.1@[i] == src@[r.2@[i]],
        forall|j: int| 0 <= j < out@.len() ==> #[trigger] r.1@.contains(src@[j]),
        forall|i: int, j: int| 0 <= i < j < r.0@.len() && r.2@[j] < r.2@[i] ==> (#[trigger] r.0@[i]).key_lt(#[trigger] r.0@[j]),
{
    let ghost orig = out@;
    let sorted = stable_sort(out);
    let ghost mut perm: Seq<int> = Seq::empty();
    proof {
        lemma_cut_weak(orig);
        perm = lemma_stable_sorted_stable(orig);
    }
    let ghost src2 = Seq::new(orig.len(), |i: int| src@[perm[i]]);
    proof {
        assert forall|a: int, b: int| 0 <= a < b < src2.len() implies src2[a] != src2[b] by {
            assert(perm[a] != perm[b]);
        }
        assert forall|j: int| 0 <= j < orig.len() implies #[trigger] src2.contains(src@[j]) by {
            lemma_perm_onto(perm, orig.len() as int, j);
            let i = choose|i: int| 0 <= i < perm.len() && perm[i] == j;
            assert(src2[i] == src@[j]);
        }
    }
    (sorted, Ghost(src2), Ghost(perm))
}

/// Compute back-edges within a single SCC.
///
/// Default mode: a weighted vertex ordering (Eades–Lin–Smyth / GR heuristic,
/// weighted by occurrence count) that approximately maximizes forward-edge
/// weight. Back-edges = intra-SCC edges `u -> v` where `v` comes after `u` in
/// the foundation-first order.
///
/// `respect_order` mode: use the user's pinned module order (foundation
/// first); modules not named keep their computed relative position after the
/// named ones. Any edge that points "upward" is reported as a violation to cut.
///
/// Alongside the cuts come, as ghost values, the position in the order of
/// every node and the edge index of every cut.
fn scc_back_edges(
    mg: &ModuleGraph,
    labels: &Vec<String>,
    comp: &Vec<usize>,
    scc_index: usize,
    respect_order: Option<&[String]>,
) -> (r: (Vec<BackEdge>, Ghost<Seq<int>>, Ghost<Seq<int>>))
    requires
        views(labels@) == mg.labels(),
        edges_valid(*mg),
        comp@.no_duplicates(),
        forall|i: int| 0 <= i < comp@.len() ==> (#[trigger] comp@[i]) < mg.nodes().len(),
        occurrence_total(*mg) <= i64::MAX,
    ensures
        r.1@.len() == mg.nodes().len(),
        forall|a: usize, b: usize| comp@.contains(a) && comp@.contains(b) && a != b ==> r.1@[a as int] != r.1@[b as int],
        r.2@.len() == r.0@.len(),
        r.2@.no_duplicates(),
        forall|i: int| 0 <= i < r.0@.len() ==> inner_edge(*mg, comp@, #[trigger] r.2@[i])
            && reports_edge(r.0@[i], *mg, r.2@[i], scc_index)
            && upward(r.1@, mg.ends()[r.2@[i]]),
        forall|k: int| inner_edge(*mg, comp@, k) && upward(r.1@, mg.ends()[k]) ==> r.2@.contains(k),
        ordered_positions(*mg, comp@, r.1@, pin_of(respect_order)),
        tie_order(r.0@, r.2@),
        respect_order matches Some(spec) ==> labels_distinct_in(mg.labels(), comp@) ==> forall|a: usize, b: usize|
            comp@.contains(a) && comp@.contains(b)
            && pin_rank(views(spec@), mg.labels()[a as int]) < pin_rank(views(spec@), mg.labels()[b as int])
            ==> #[trigger] r.1@[a as int] < #[trigger] r.1@[b as int],
{
    let n = graph_node_count(&mg.graph);
    proof {
        assert(mg.labels().len() == mg.nodes().len());
        assert(views(labels@).len() == labels@.len());
    }
    let m = comp.len();
    let (sorted_comp, to_id) = comp_ids(labels, comp, n);
    let nodes = id_list(m);
    let weighted = intra_weights(mg, &to_id, m);
    proof {
        let ge = graph_edges(mg.graph);
        assert forall|k: int| 0 <= k < ge.len() implies (#[trigger] ge[k]).0 < to_id@.len() && ge[k].1 < to_id@.len() by {
            assert(mg.ends()[k] == (ge[k].0, ge[k].1));
        }
        assert forall|v: int| 0 <= v < to_id@.len() implies (#[trigger] to_id@[v] < m <==> sorted_comp@.contains(v as usize)) by {
            assert(comp@.contains(v as usize) <==> sorted_comp@.contains(v as usize));
        }
        lemma_member_edges(ge, to_id@, sorted_comp@, m as int);
        assert(weighted@ == member_edges(ge, sorted_comp@));
    }
    let order: Vec<usize> = match respect_order {
        None => {
            proof {
                lemma_ids(m as nat);
            }
            proof {
                crate::fas::lemma_counted_weight_bound(nodes@, weighted@);
            }
            let o = min_fas_order(nodes.as_slice(), weighted.as_slice());
            proof {
                assert(is_order(o@, m as nat));
                lemma_reverse_order(o@, m as nat);
            }
            let ro = reversed(o);
            proof {
                assert(ro@ == default_comp_order(*mg, sorted_comp@));
            }
            ro
        },
        Some(spec) => {
            proof {
                if labels_distinct_in(mg.labels(), comp@) {
                    assert forall|x: int, y: int| 0 <= x < sorted_comp@.len() && 0 <= y < sorted_comp@.len() && x != y
                        implies labels@[#[trigger] sorted_comp@[x] as int]@ != labels@[#[trigger] sorted_comp@[y] as int]@ by {
                        assert(views(labels@)[sorted_comp@[x] as int] == labels@[sorted_comp@[x] as int]@);
                        assert(views(labels@)[sorted_comp@[y] as int] == labels@[sorted_comp@[y] as int]@);
                        assert(sorted_comp@.contains(sorted_comp@[x]));
                        assert(sorted_comp@.contains(sorted_comp@[y]));
                        let p = choose|p: int| 0 <= p < comp@.len() && comp@[p] == sorted_comp@[x];
                        let q = choose|q: int| 0 <= q < comp@.len() && comp@[q] == sorted_comp@[y];
                        assert(sorted_comp@[x] != sorted_comp@[y]);
                        assert(p != q);
                        assert(mg.labels()[comp@[p] as int] != mg.labels()[comp@[q] as int]);
                    }
                }
            }
            let po = pinned_order(labels, &sorted_comp, &nodes, &weighted, spec);
            proof {
                assert(views(labels@) == mg.labels());
                assert(po@ == comp_order(*mg, sorted_comp@, pin_of(respect_order)));
            }
            po
        },
    };
    let pos = positions(&order, m);
    let ghost gpos = node_positions(to_id@, pos@, m as nat);
    proof {
        {
            let sc = sorted_comp@;
            assert forall|i: int, j: int| 0 <= i < j < sc.len()
                implies !seq_lt(mg.labels()[(#[trigger] sc[j]) as int], mg.labels()[(#[trigger] sc[i]) as int]) by {
                assert(views(labels@)[sc[j] as int] == labels@[sc[j] as int]@);
                assert(views(labels@)[sc[i] as int] == labels@[sc[i] as int]@);
            }
            assert(label_sorted_members(mg.labels(), comp@, sc));
            assert forall|j: int| 0 <= j < sc.len() implies 0 <= #[trigger] gpos[sc[j] as int] < order@.len() && order@[gpos[sc[j] as int]] == j by {
                assert(to_id@[sc[j] as int] == j);
                assert(gpos[sc[j] as int] == pos@[j]);
            }
            assert(order@ == comp_order(*mg, sc, pin_of(respect_order)));
            assert(follows_order(gpos, sc, comp_order(*mg, sc, pin_of(respect_order))));
            assert(is_order(comp_order(*mg, sc, pin_of(respect_order)), sc.len()));
        }
        if respect_order is Some && labels_distinct_in(mg.labels(), comp@) {
            let spec = respect_order->0;
            let sv = views(spec@);
            assert(local_labels_distinct(labels@, sorted_comp@));
            assert forall|a: usize, b: usize|
                comp@.contains(a) && comp@.contains(b)
                && pin_rank(sv, mg.labels()[a as int]) < pin_rank(sv, mg.labels()[b as int])
                implies #[trigger] gpos[a as int] < #[trigger] gpos[b as int] by {
                let x = to_id@[a as int];
                let y = to_id@[b as int];
                assert(x < m && y < m);
                assert(sorted_comp@[x as int] == a);
                assert(sorted_comp@[y as int] == b);
                assert(views(labels@)[a as int] == labels@[a as int]@);
                assert(views(labels@)[b as int] == labels@[b as int]@);
                assert(local_rank(labels@, sorted_comp@, sv, x) == pin_rank(sv, mg.labels()[a as int]));
                assert(local_rank(labels@, sorted_comp@, sv, y) == pin_rank(sv, mg.labels()[b as int]));
                assert(order@[pos@[x as int] as int] == x);
                assert(order@[pos@[y as int] as int] == y);
                assert(gpos[a as int] == pos@[x as int]);
                assert(gpos[b as int] == pos@[y as int]);
                if pos@[y as int] < pos@[x as int] {
                    assert(local_rank(labels@, sorted_comp@, sv, order@[pos@[y as int] as int])
                        <= local_rank(labels@, sorted_comp@, sv, order@[pos@[x as int] as int]));
                }
            }
        }
    }
    let (out, src) = collect_upward(mg, labels, Ghost(comp@), &to_id, &pos, scc_index);
    let (sorted, src2, perm) = sort_cuts(out, src);
    proof {
        assert forall|i: int, j: int| 0 <= i < j < sorted@.len() && !(#[trigger] sorted@[j]).key_lt(#[trigger] sorted@[i]) && !sorted@[i].key_lt(sorted@[j])
            implies sorted@[i].scc < sorted@[j].scc || (sorted@[i].scc == sorted@[j].scc && src2@[i] < src2@[j]) by {
            assert(perm@[i] != perm@[j]);
            assert(sorted@[i] == out@[perm@[i]]);
            assert(sorted@[j] == out@[perm@[j]]);
            assert(reports_edge(out@[perm@[i]], *mg, src@[perm@[i]], scc_index));
            assert(reports_edge(out@[perm@[j]], *mg, src@[perm@[j]], scc_index));
        }
        assert forall|a: usize, b: usize| comp@.contains(a) && comp@.contains(b) && a != b implies gpos[a as int] != gpos[b as int] by {
            assert(to_id@[a as int] < m);
            assert(to_id@[b as int] < m);
            assert(sorted_comp@[to_id@[a as int] as int] == a);
            assert(sorted_comp@[to_id@[b as int] as int] == b);
            let x = to_id@[a as int] as int;
            let y = to_id@[b as int] as int;
            assert(order@[pos@[x] as int] == x);
            assert(order@[pos@[y] as int] == y);
        }
        assert forall|i: int| 0 <= i < sorted@.len() implies inner_edge(*mg, comp@, #[trigger] src2@[i])
            && reports_edge(sorted@[i], *mg, src2@[i], scc_index) && upward(gpos, mg.ends()[src2@[i]]) by {
            let j = perm@[i];
            assert(src2@[i] == src@[j]);
            assert(sorted@[i] == out@[j]);
        }
        assert forall|k: int| inner_edge(*mg, comp@, k) && upward(gpos, mg.ends()[k]) implies src2@.contains(k) by {
            assert(src@.contains(k));
            let j = choose|j: int| 0 <= j < src@.len() && src@[j] == k;
            assert(src2@.contains(src@[j]));
        }
    }
    (sorted, Ghost(gpos), src2)
}

/// For every node, the index of its component.
fn scc_index_of(sccs: &Vec<Vec<usize>>, n: usize, edges: Ghost<Seq<(usize, usize)>>) -> (r: Vec<usize>)
    requires
        is_scc_decomposition(n as nat, edges@, comp_views(sccs@)),
    ensures
        r@.len() == n,
        forall|v: int| 0 <= v < n ==> #[trigger] r@[v] < sccs@.len() && in_comp(comp_views(sccs@), r@[v] as int, v),
{
    let ghost cv = comp_views(sccs@);
    let mut r = filled(0usize, n);
    let mut i: usize = 0;
    while i < sccs.len()
        invariant
            cv == comp_views(sccs@),
            is_scc_decomposition(n as nat, edges@, cv),
            i <= sccs@.len(),
            r@.len() == n,
            forall|v: int| 0 <= v < n && (exists|c: int| 0 <= c < i && #[trigger] in_comp(cv, c, v))
                ==> #[trigger] r@[v] < i && in_comp(cv, r@[v] as int, v),
        decreases sccs@.len() - i,
    {
        let comp = &sccs[i];
        assert(comp@ == cv[i as int]);
        let mut j: usize = 0;
        while j < comp.len()
            invariant
                cv == comp_views(sccs@),
                is_scc_decomposition(n as nat, edges@, cv),
                i < sccs@.len(),
                comp@ == cv[i as int],
                j <= comp@.len(),
                r@.len() == n,
                forall|v: int| 0 <= v < n && ((exists|c: int| 0 <= c < i && #[trigger] in_comp(cv, c, v)) || comp@.take(j as int).contains(v as usize))
                    ==> #[trigger] r@[v] <= i && in_comp(cv, r@[v] as int, v),
            decreases comp@.len() - j,
        {
            let v = comp[j];
            assert(cv[i as int][j as int] < n);
            let ghost before = r@;
            r[v] = i;
            proof {
                assert(in_comp(cv, i as int, v as int));
                assert forall|w: int| 0 <= w < n && ((exists|c: int| 0 <= c < i && #[trigger] in_comp(cv, c, w)) || comp@.take(j + 1).contains(w as usize))
                    implies #[trigger] r@[w] <= i && in_comp(cv, r@[w] as int, w) by {
                    if w != v {
                        assert(r@[w] == before[w]);
                        if comp@.take(j + 1).contains(w as usize) {
                            let q = choose|q: int| 0 <= q < j + 1 && #[trigger] comp@.take(j + 1)[q] == w as usize;
                            if q == j {
                                assert(false);
                            }
                            assert(comp@.take(j as int)[q] == w as usize);
                        }
                    }
                }
            }
            j = j + 1;
        }
        proof {
            assert(comp@.take(comp@.len() as int) =~= comp@);
            assert forall|v: int| 0 <= v < n && (exists|c: int| 0 <= c < i + 1 && #[trigger] in_comp(cv, c, v))
                implies #[trigger] r@[v] < i + 1 && in_comp(cv, r@[v] as int, v) by {
                let c = choose|c: int| 0 <= c < i + 1 && #[trigger] in_comp(cv, c, v);
                if c == i {
                    assert(comp@.contains(v as usize));
                }
            }
        }
        i = i + 1;
    }
    proof {
        assert forall|v: int| 0 <= v < n implies #[trigger] r@[v] < sccs@.len() && in_comp(cv, r@[v] as int, v) by {
            assert(covered(cv, v));
            let c = choose|c: int| #[trigger] in_comp(cv, c, v);
        }
    }
    r
}

/// Edge `k` survives the cuts.
pub open spec fn kept(mg: ModuleGraph, cuts: Seq<LabelEdge>, k: int) -> bool {
    !cut_listed(cuts, mg.labels()[mg.ends()[k].0 as int], mg.labels()[mg.ends()[k].1 as int])
}

/// Component `t` is a direct dependency of component `i` in the condensation
/// of the graph with the cuts removed.
pub open spec fn cond_edge(mg: ModuleGraph, cuts: Seq<LabelEdge>, comps: Seq<Seq<usize>>, i: int, t: int) -> bool {
    i != t && exists|k: int| 0 <= k < mg.ends().len() && kept(mg, cuts, k)
        && #[trigger] in_comp(comps, i, mg.ends()[k].0 as int) && #[trigger] in_comp(comps, t, mg.ends()[k].1 as int)
}

/// `succ` lists, without repetition, the direct dependencies of each component.
pub open spec fn is_condensation(mg: ModuleGraph, cuts: Seq<LabelEdge>, comps: Seq<Seq<usize>>, succ: Seq<Seq<usize>>) -> bool {
    &&& succ.len() == comps.len()
    &&& forall|i: int| 0 <= i < succ.len() ==> (#[trigger] succ[i]).no_duplicates()
    &&& forall|i: int, t: usize| 0 <= i < succ.len() ==> (#[trigger] succ[i].contains(t) <==> cond_edge(mg, cuts, comps, i, t as int))
}

/// Does `row` hold `x`?
fn row_has(row: &Vec<usize>, x: usize) -> (r: bool)
    ensures
        r == row@.contains(x),
{
    let mut i: usize = 0;
    while i < row.len()
        invariant
            i <= row@.len(),
            forall|j: int| 0 <= j < i ==> row@[j] != x,
        decreases row@.len() - i,
    {
        if row[i] == x {
            return true;
        }
        i = i + 1;
    }
    false
}

/// The condensation of the graph with `applied` removed: for each component,
/// the components it has a kept edge into.
fn condense(
    mg: &ModuleGraph,
    labels: &Vec<String>,
    applied: &[LabelEdge],
    sccs: &Vec<Vec<usize>>,
    scc_of: &Vec<usize>,
) -> (r: Vec<Vec<usize>>)
    requires
        views(labels@) == mg.labels(),
        is_scc_decomposition(mg.nodes().len(), kept_edges(mg.ends(), mg.labels(), applied@), comp_views(sccs@)),
        scc_of@.len() == mg.nodes().len(),
        forall|v: int| 0 <= v < mg.nodes().len() ==> #[trigger] scc_of@[v] < sccs@.len() && in_comp(comp_views(sccs@), scc_of@[v] as int, v),
    ensures
        is_condensation(*mg, applied@, comp_views(sccs@), r@.map_values(|v: Vec<usize>| v@)),
        points_down(r@.map_values(|v: Vec<usize>| v@)),
{
    let ghost cv = comp_views(sccs@);
    let ghost kept_seq = kept_edges(mg.ends(), mg.labels(), applied@);
    proof {
        lemma_kept_edges(mg.ends(), mg.labels(), applied@);
        assert(mg.labels().len() == mg.nodes().len());
        assert(views(labels@).len() == labels@.len());
    }
    let c = sccs.len();
    let mut cond: Vec<Vec<usize>> = Vec::new();
    let mut i: usize = 0;
    while i < c
        invariant
            i <= c,
            cond@.len() == i,
            forall|j: int| 0 <= j < i ==> (#[trigger] cond@[j])@.len() == 0,
        decreases c - i,
    {
        cond.push(Vec::new());
        i = i + 1;
    }
    let e = graph_edge_count(&mg.graph);
    let mut k: usize = 0;
    while k < e
        invariant
            views(labels@) == mg.labels(),
            labels@.len() == mg.nodes().len(),
            cv == comp_views(sccs@),
            is_scc_decomposition(mg.nodes().len(), kept_seq, cv),
            kept_seq == kept_edges(mg.ends(), mg.labels(), applied@),
            forall|k: int| 0 <= k < mg.ends().len() && !cut_listed(applied@, mg.labels()[mg.ends()[k].0 as int], mg.labels()[mg.ends()[k].1 as int])
                ==> kept_seq.contains(#[trigger] mg.ends()[k]),
            scc_of@.len() == mg.nodes().len(),
            forall|v: int| 0 <= v < mg.nodes().len() ==> #[trigger] scc_of@[v] < sccs@.len() && in_comp(cv, scc_of@[v] as int, v),
            c == sccs@.len(),
            e == mg.ends().len(),
            k <= e,
            cond@.len() == c,
            forall|a: int| 0 <= a < c ==> (#[trigger] cond@[a])@.no_duplicates(),
            forall|a: int, b: int| 0 <= a < c && 0 <= b < cond@[a]@.len() ==> (#[trigger] cond@[a]@[b]) < a,
            forall|a: int, t: usize| 0 <= a < c ==> (#[trigger] cond@[a]@.contains(t) <==>
                (a != t && exists|kk: int| 0 <= kk < k && kept(*mg, applied@, kk)
                    && #[trigger] in_comp(cv, a, mg.ends()[kk].0 as int) && #[trigger] in_comp(cv, t as int, mg.ends()[kk].1 as int))),
        decreases e - k,
    {
        let (s, t) = graph_edge_ends(&mg.graph, k);
        proof {
            assert(mg.ends()[k as int] == (s, t));
            assert(views(labels@)[s as int] == labels@[s as int]@);
            assert(views(labels@)[t as int] == labels@[t as int]@);
        }
        if !cut_contains(applied, &labels[s], &labels[t]) {
            let a = scc_of[s];
            let b = scc_of[t];
            proof {
                assert(kept_seq.contains(mg.ends()[k as int]));
                let x = choose|x: int| 0 <= x < kept_seq.len() && kept_seq[x] == mg.ends()[k as int];
                if a != b {
                    assert(in_comp(cv, a as int, kept_seq[x].0 as int));
                    assert(in_comp(cv, b as int, kept_seq[x].1 as int));
                    assert(b < a);
                }
            }
            if a != b && !row_has(&cond[a], b) {
                let ghost orig = cond@;
                let mut row: Vec<usize> = Vec::new();
                std::mem::swap(&mut row, &mut cond[a]);
                let ghost before = cond@;
                let ghost old_row = row@;
                assert(old_row == orig[a as int]@);
                proof {
                    lemma_push_new(row@, b);
                }
                row.push(b);
                cond[a] = row;
                proof {
                    assert forall|a2: int, t2: usize| 0 <= a2 < c implies (#[trigger] cond@[a2]@.contains(t2) <==>
                        (a2 != t2 && exists|kk: int| 0 <= kk < k + 1 && kept(*mg, applied@, kk)
                            && #[trigger] in_comp(cv, a2, mg.ends()[kk].0 as int) && #[trigger] in_comp(cv, t2 as int, mg.ends()[kk].1 as int))) by {
                        let old_has = orig[a2]@.contains(t2);
                        assert(old_has <==> (a2 != t2 && exists|kk: int| 0 <= kk < k && kept(*mg, applied@, kk)
                            && #[trigger] in_comp(cv, a2, mg.ends()[kk].0 as int) && #[trigger] in_comp(cv, t2 as int, mg.ends()[kk].1 as int)));
                        if a2 == a {
                            assert(cond@[a2]@ == old_row.push(b));
                            assert(cond@[a2]@.contains(t2) <==> (old_has || t2 == b));
                        } else {
                            assert(cond@[a2] == before[a2]);
                            assert(before[a2] == orig[a2]);
                        }
                        if cond@[a2]@.contains(t2) {
                            if a2 == a && t2 == b {
                                assert(in_comp(cv, a as int, mg.ends()[k as int].0 as int));
                                assert(in_comp(cv, b as int, mg.ends()[k as int].1 as int));
                            } else {
                                assert(old_has);
                                let kk = choose|kk: int| 0 <= kk < k && kept(*mg, applied@, kk)
                                    && #[trigger] in_comp(cv, a2, mg.ends()[kk].0 as int) && #[trigger] in_comp(cv, t2 as int, mg.ends()[kk].1 as int);
                                assert(0 <= kk < k + 1);
                            }
                        }
                        if a2 != t2 && exists|kk: int| 0 <= kk < k + 1 && kept(*mg, applied@, kk)
                            && #[trigger] in_comp(cv, a2, mg.ends()[kk].0 as int) && #[trigger] in_comp(cv, t2 as int, mg.ends()[kk].1 as int) {
                            let kk = choose|kk: int| 0 <= kk < k + 1 && kept(*mg, applied@, kk)
                                && #[trigger] in_comp(cv, a2, mg.ends()[kk].0 as int) && #[trigger] in_comp(cv, t2 as int, mg.ends()[kk].1 as int);
                            if kk == k {
                                assert(in_comp(cv, a as int, s as int));
                                assert(in_comp(cv, b as int, t as int));
                                assert(a2 == a as int);
                                assert(t2 == b);
                            } else {
                                assert(old_has);
                            }
                        }
                    }
                }
            } else {
                proof {
                    assert forall|a2: int, t2: usize| 0 <= a2 < c implies (#[trigger] cond@[a2]@.contains(t2) <==>
                        (a2 != t2 && exists|kk: int| 0 <= kk < k + 1 && kept(*mg, applied@, kk)
                            && #[trigger] in_comp(cv, a2, mg.ends()[kk].0 as int) && #[trigger] in_comp(cv, t2 as int, mg.ends()[kk].1 as int))) by {
                        if a2 != t2 && exists|kk: int| 0 <= kk < k + 1 && kept(*mg, applied@, kk)
                            && #[trigger] in_comp(cv, a2, mg.ends()[kk].0 as int) && #[trigger] in_comp(cv, t2 as int, mg.ends()[kk].1 as int) {
                            let kk = choose|kk: int| 0 <= kk < k + 1 && kept(*mg, applied@, kk)
                                && #[trigger] in_comp(cv, a2, mg.ends()[kk].0 as int) && #[trigger] in_comp(cv, t2 as int, mg.ends()[kk].1 as int);
                            if kk == k {
                                assert(in_comp(cv, a as int, s as int));
                                assert(in_comp(cv, b as int, t as int));
                                assert(a2 == a as int);
                                assert(t2 == b);
                                assert(cond@[a as int]@.contains(b));
                            }
                        }
                        if cond@[a2]@.contains(t2) {
                            let kk = choose|kk: int| 0 <= kk < k && kept(*mg, applied@, kk)
                                && #[trigger] in_comp(cv, a2, mg.ends()[kk].0 as int) && #[trigger] in_comp(cv, t2 as int, mg.ends()[kk].1 as int);
                            assert(0 <= kk < k + 1);
                        }
                    }
                }
            }
        } else {
            proof {
                assert(!kept(*mg, applied@, k as int));
                assert forall|a2: int, t2: usize| 0 <= a2 < c implies (#[trigger] cond@[a2]@.contains(t2) <==>
                    (a2 != t2 && exists|kk: int| 0 <= kk < k + 1 && kept(*mg, applied@, kk)
                        && #[trigger] in_comp(cv, a2, mg.ends()[kk].0 as int) && #[trigger] in_comp(cv, t2 as int, mg.ends()[kk].1 as int))) by {
                    if a2 != t2 && exists|kk: int| 0 <= kk < k + 1 && kept(*mg, applied@, kk)
                        && #[trigger] in_comp(cv, a2, mg.ends()[kk].0 as int) && #[trigger] in_comp(cv, t2 as int, mg.ends()[kk].1 as int) {
                        let kk = choose|kk: int| 0 <= kk < k + 1 && kept(*mg, applied@, kk)
                            && #[trigger] in_comp(cv, a2, mg.ends()[kk].0 as int) && #[trigger] in_comp(cv, t2 as int, mg.ends()[kk].1 as int);
                        assert(kk != k);
                    }
                }
            }
        }
        k = k + 1;
    }
    let ghost ss = cond@.map_values(|v: Vec<usize>| v@);
    proof {
        assert forall|i: int, t: usize| 0 <= i < ss.len() implies (#[trigger] ss[i].contains(t) <==> cond_edge(*mg, applied@, cv, i, t as int)) by {
            assert(ss[i] == cond@[i]@);
        }
        assert forall|i: int| 0 <= i < ss.len() implies (#[trigger] ss[i]).no_duplicates() by {
            assert(ss[i] == cond@[i]@);
        }
        assert forall|i: int, j: int| 0 <= i < ss.len() && 0 <= j < ss[i].len() implies (#[trigger] ss[i][j]) < i by {
            assert(ss[i] == cond@[i]@);
        }
    }
    cond
}

/// The labels of a component's nodes, in component order.
pub open spec fn comp_labels(labels: Seq<Seq<char>>, comp: Seq<usize>) -> Seq<Seq<char>> {
    comp.map_values(|v: usize| labels[v as int])
}

/// A component's nodes as integers.
pub open spec fn as_ints(comp: Seq<usize>) -> Seq<int> {
    comp.map_values(|v: usize| v as int)
}

/// Lines of code of each node.
pub open spec fn node_locs(mg: ModuleGraph) -> Seq<nat> {
    mg.nodes().map_values(|n: ModuleNode| n.loc as nat)
}

/// File count of each node.
pub open spec fn node_files(mg: ModuleGraph) -> Seq<nat> {
    mg.nodes().map_values(|n: ModuleNode| n.file_count as nat)
}

/// The crate name each component gets before disambiguation.
pub open spec fn base_names(mg: ModuleGraph, prefix: Seq<char>, comps: Seq<Seq<usize>>) -> Seq<Seq<char>> {
    comps.map_values(|c: Seq<usize>| crate_name_spec(prefix, sorted_seqs(comp_labels(mg.labels(), c))))
}

/// Sum of `w` over the nodes of `comp`.
fn comp_sum(w: &Vec<usize>, comp: &Vec<usize>, total: Ghost<Seq<nat>>) -> (r: usize)
    requires
        w@.len() == total@.len(),
        forall|v: int| 0 <= v < w@.len() ==> #[trigger] total@[v] == w@[v] as nat,
        seq_sum(total@) <= usize::MAX,
        comp@.no_duplicates(),
        forall|i: int| 0 <= i < comp@.len() ==> (#[trigger] comp@[i]) < w@.len(),
    ensures
        r == picked_sum(total@, as_ints(comp@)),
{
    let ghost src = as_ints(comp@);
    proof {
        assert forall|a: int, b: int| 0 <= a < b < src.len() implies src[a] != src[b] by {
            assert(comp@[a] != comp@[b]);
        }
    }
    let mut acc: usize = 0;
    let mut i: usize = 0;
    while i < comp.len()
        invariant
            w@.len() == total@.len(),
            forall|v: int| 0 <= v < w@.len() ==> #[trigger] total@[v] == w@[v] as nat,
            seq_sum(total@) <= usize::MAX,
            src == as_ints(comp@),
            src.no_duplicates(),
            forall|i: int| 0 <= i < comp@.len() ==> (#[trigger] comp@[i]) < w@.len(),
            i <= comp@.len(),
            acc == picked_sum(total@, src.take(i as int)),
        decreases comp@.len() - i,
    {
        let ghost t = src.take(i + 1);
        proof {
            assert(t.drop_last() =~= src.take(i as int));
            assert forall|a: int, b: int| 0 <= a < b < t.len() implies t[a] != t[b] by {
                assert(src[a] != src[b]);
            }
            assert forall|x: int| 0 <= x < t.len() implies 0 <= #[trigger] t[x] < total@.len() by {
                assert(t[x] == comp@[x] as int);
            }
            lemma_picked_sum_bound(total@, t);
        }
        acc = acc + w[comp[i]];
        i = i + 1;
    }
    proof {
        assert(src.take(comp@.len() as int) =~= src);
    }
    acc
}

/// A component's sorted module labels, and the crate name suggested for it.
fn describe_comp(labels: &Vec<String>, prefix: &str, comp: &Vec<usize>) -> (r: (Vec<String>, String))
    requires
        forall|i: int| 0 <= i < comp@.len() ==> (#[trigger] comp@[i]) < labels@.len(),
    ensures
        views(r.0@) == sorted_seqs(comp_labels(views(labels@), comp@)),
        r.1@ == crate_name_spec(prefix@, sorted_seqs(comp_labels(views(labels@), comp@))),
{
    let mut mods: Vec<String> = Vec::new();
    let mut i: usize = 0;
    while i < comp.len()
        invariant
            forall|i: int| 0 <= i < comp@.len() ==> (#[trigger] comp@[i]) < labels@.len(),
            i <= comp@.len(),
            views(mods@) == comp_labels(views(labels@), comp@.take(i as int)),
        decreases comp@.len() - i,
    {
        let ghost before = views(mods@);
        mods.push(labels[comp[i]].clone());
        proof {
            assert(views(mods@) =~= before.push(labels@[comp@[i as int] as int]@));
            assert(comp_labels(views(labels@), comp@.take(i + 1)) =~= comp_labels(views(labels@), comp@.take(i as int)).push(views(labels@)[comp@[i as int] as int]));
        }
        i = i + 1;
    }
    proof {
        assert(comp@.take(comp@.len() as int) =~= comp@);
    }
    let sorted = sort_strings(mods);
    let name = crate_name_for(prefix, sorted.as_slice());
    (sorted, name)
}

/// The crate names of the components listed in `row`, sorted and deduplicated.
fn dep_names(row: &Vec<usize>, names: &Vec<String>) -> (r: Vec<String>)
    requires
        forall|j: int| 0 <= j < row@.len() ==> (#[trigger] row@[j]) < names@.len(),
    ensures
        views(r@) == dedup_seq(sorted_seqs(row@.map_values(|t: usize| views(names@)[t as int]))),
{
    let mut v: Vec<String> = Vec::new();
    let mut j: usize = 0;
    while j < row.len()
        invariant
            forall|j: int| 0 <= j < row@.len() ==> (#[trigger] row@[j]) < names@.len(),
            j <= row@.len(),
            views(v@) == row@.take(j as int).map_values(|t: usize| views(names@)[t as int]),
        decreases row@.len() - j,
    {
        let ghost before = views(v@);
        v.push(names[row[j]].clone());
        proof {
            assert(views(v@) =~= before.push(names@[row@[j as int] as int]@));
            assert(row@.take(j + 1).map_values(|t: usize| views(names@)[t as int])
                =~= row@.take(j as int).map_values(|t: usize| views(names@)[t as int]).push(views(names@)[row@[j as int] as int]));
        }
        j = j + 1;
    }
    proof {
        assert(row@.take(row@.len() as int) =~= row@);
    }
    dedup_strings(sort_strings(v))
}

/// The names of the proposals on layer `level`, in order.
pub open spec fn names_at(props: Seq<CrateProposal>, level: usize) -> Seq<Seq<char>>
    decreases props.len(),
{
    if props.len() == 0 {
        Seq::empty()
    } else {
        let r = names_at(props.drop_last(), level);
        if props.last().layer == level { r.push(props.last().crate_name@) } else { r }
    }
}

/// `layers` groups the proposals' names by layer: one entry per occupied
/// level, levels ascending, names sorted.
pub open spec fn groups_layers(layers: Seq<Layer>, props: Seq<CrateProposal>) -> bool {
    &&& forall|j: int| 0 <= j < layers.len() ==> names_at(props, (#[trigger] layers[j]).level).len() > 0
        && views(layers[j].crates@) == sorted_seqs(names_at(props, layers[j].level))
    &&& forall|a: int, b: int| 0 <= a < b < layers.len() ==> (#[trigger] layers[a]).level < (#[trigger] layers[b]).level
    &&& forall|i: int| 0 <= i < props.len() ==> has_level(layers, (#[trigger] props[i]).layer)
}

/// Some layer has this level.
pub open spec fn has_level(layers: Seq<Layer>, level: usize) -> bool {
    exists|j: int| 0 <= j < layers.len() && (#[trigger] layers[j]).level == level
}

proof fn lemma_names_at_nonempty(props: Seq<CrateProposal>, i: int)
    requires
        0 <= i < props.len(),
    ensures
        names_at(props, props[i].layer).len() > 0,
    decreases props.len(),
{
    if i < props.len() - 1 {
        lemma_names_at_nonempty(props.drop_last(), i);
    }
}

/// Names of the proposals on layer `level`.
fn names_on(props: &Vec<CrateProposal>, level: usize) -> (r: Vec<String>)
    ensures
        views(r@) == names_at(props@, level),
{
    let mut v: Vec<String> = Vec::new();
    let mut i: usize = 0;
    while i < props.len()
        invariant
            i <= props@.len(),
            views(v@) == names_at(props@.take(i as int), level),
        decreases props@.len() - i,
    {
        proof {
            assert(props@.take(i + 1).drop_last() =~= props@.take(i as int));
        }
        if props[i].layer == level {
            let ghost before = views(v@);
            v.push(props[i].crate_name.clone());
            proof {
                assert(views(v@) =~= before.push(props@[i as int].crate_name@));
            }
        }
        i = i + 1;
    }
    proof {
        assert(props@.take(props@.len() as int) =~= props@);
    }
    v
}

/// Group proposal names by layer, levels ascending.
fn group_layers(props: &Vec<CrateProposal>) -> (r: Vec<Layer>)
    requires
        forall|i: int| 0 <= i < props@.len() ==> (#[trigger] props@[i]).layer < props@.len(),
    ensures
        groups_layers(r@, props@),
{
    let mut layers: Vec<Layer> = Vec::new();
    let n = props.len();
    let mut l: usize = 0;
    while l < n
        invariant
            n == props@.len(),
            forall|i: int| 0 <= i < props@.len() ==> (#[trigger] props@[i]).layer < props@.len(),
            l <= n,
            forall|j: int| 0 <= j < layers@.len() ==> (#[trigger] layers@[j]).level < l,
            forall|j: int| 0 <= j < layers@.len() ==> names_at(props@, (#[trigger] layers@[j]).level).len() > 0
                && views(layers@[j].crates@) == sorted_seqs(names_at(props@, layers@[j].level)),
            forall|a: int, b: int| 0 <= a < b < layers@.len() ==> (#[trigger] layers@[a]).level < (#[trigger] layers@[b]).level,
            forall|i: int| 0 <= i < props@.len() && (#[trigger] props@[i]).layer < l ==> has_level(layers@, props@[i].layer),
        decreases n - l,
    {
        let names = names_on(props, l);
        if names.len() > 0 {
            let crates = sort_strings(names);
            let ghost before = layers@;
            layers.push(Layer { level: l, crates });
            proof {
                assert forall|i: int| 0 <= i < props@.len() && (#[trigger] props@[i]).layer < l + 1 implies has_level(layers@, props@[i].layer) by {
                    if props@[i].layer < l {
                        assert(has_level(before, props@[i].layer));
                        let j = choose|j: int| 0 <= j < before.len() && (#[trigger] before[j]).level == props@[i].layer;
                        assert(layers@[j] == before[j]);
                    } else {
                        assert(layers@[before.len() as int].level == l);
                    }
                }
                assert forall|j: int| 0 <= j < layers@.len() implies names_at(props@, (#[trigger] layers@[j]).level).len() > 0
                    && views(layers@[j].crates@) == sorted_seqs(names_at(props@, layers@[j].level)) by {
                    if j < before.len() {
                        assert(layers@[j] == before[j]);
                    }
                }
            }
        } else {
            proof {
                assert forall|i: int| 0 <= i < props@.len() && (#[trigger] props@[i]).layer < l + 1 implies has_level(layers@, props@[i].layer) by {
                    if props@[i].layer == l {
                        lemma_names_at_nonempty(props@, i);
                        assert(false);
                    }
                }
            }
        }
        l = l + 1;
    }
    proof {
        assert forall|i: int| 0 <= i < props@.len() implies has_level(layers@, (#[trigger] props@[i]).layer) by {
            assert(props@[i].layer < l);
        }
        assert(forall|j: int| 0 <= j < layers@.len() ==> names_at(props@, (#[trigger] layers@[j]).level).len() > 0
            && views(layers@[j].crates@) == sorted_seqs(names_at(props@, layers@[j].level)));
        assert(forall|a: int, b: int| 0 <= a < b < layers@.len() ==> (#[trigger] layers@[a]).level < (#[trigger] layers@[b]).level);

    }
    layers
}

/// `p` is the proposal for component `i` of `comps`, whose condensation
/// successor lists are `succ`.
pub open spec fn proposal_of(
    p: CrateProposal,
    mg: ModuleGraph,
    prefix: Seq<char>,
    comps: Seq<Seq<usize>>,
    succ: Seq<Seq<usize>>,
    i: int,
) -> bool {
    let names = base_names(mg, prefix, comps);
    &&& views(p.modules@) == sorted_seqs(comp_labels(mg.labels(), comps[i]))
    &&& p.loc == picked_sum(node_locs(mg), as_ints(comps[i]))
    &&& p.file_count == picked_sum(node_files(mg), as_ints(comps[i]))
    &&& p.layer == chain_len(succ, i)
    &&& p.is_cycle == (comps[i].len() > 1)
    &&& p.scc == i
    &&& p.crate_name@ == deduped_name(names, i)
    &&& views(p.depends_on@) == dedup_seq(sorted_seqs(succ[i].map_values(|t: usize| deduped_name(names, t as int))))
}

/// The loc and file count of every node.
fn node_weights(mg: &ModuleGraph) -> (r: (Vec<usize>, Vec<usize>))
    ensures
        r.0@.len() == mg.nodes().len(),
        r.1@.len() == mg.nodes().len(),
        forall|v: int| 0 <= v < mg.nodes().len() ==> #[trigger] node_locs(*mg)[v] == r.0@[v] as nat,
        forall|v: int| 0 <= v < mg.nodes().len() ==> #[trigger] node_files(*mg)[v] == r.1@[v] as nat,
{
    let n = graph_node_count(&mg.graph);
    let mut locs: Vec<usize> = Vec::new();
    let mut files: Vec<usize> = Vec::new();
    let mut i: usize = 0;
    while i < n
        invariant
            n == mg.nodes().len(),
            i <= n,
            locs@.len() == i,
            files@.len() == i,
            forall|v: int| 0 <= v < i ==> #[trigger] node_locs(*mg)[v] == locs@[v] as nat,
            forall|v: int| 0 <= v < i ==> #[trigger] node_files(*mg)[v] == files@[v] as nat,
        decreases n - i,
    {
        let node = graph_node(&mg.graph, i);
        locs.push(node.loc);
        files.push(node.file_count);
        i = i + 1;
    }
    (locs, files)
}

/// Build crate proposals and layer groupings from the components of the
/// graph with `applied` removed. Proposals come in component order.
///
/// `depends_on` and layering are computed from the condensation of the
/// post-cut graph: an inter-component edge is any non-cut edge whose
/// endpoints fall in different components, so the reported DAG matches the
/// decomposition the components were computed from.
fn build_proposals(
    mg: &ModuleGraph,
    labels: &Vec<String>,
    prefix: &str,
    sccs: &Vec<Vec<usize>>,
    applied: &[LabelEdge],
) -> (r: (Vec<CrateProposal>, Vec<Layer>, Ghost<Seq<Seq<usize>>>))
    requires
        views(labels@) == mg.labels(),
        is_scc_decomposition(mg.nodes().len(), kept_edges(mg.ends(), mg.labels(), applied@), comp_views(sccs@)),
        seq_sum(node_locs(*mg)) <= usize::MAX,
        seq_sum(node_files(*mg)) <= usize::MAX,
    ensures
        is_condensation(*mg, applied@, comp_views(sccs@), r.2@),
        points_down(r.2@),
        r.0@.len() == sccs@.len(),
        forall|i: int| 0 <= i < r.0@.len() ==> proposal_of(#[trigger] r.0@[i], *mg, prefix@, comp_views(sccs@), r.2@, i),
        groups_layers(r.1@, r.0@),
{
    let ghost cv = comp_views(sccs@);
    let ghost kept_seq = kept_edges(mg.ends(), mg.labels(), applied@);
    let n = graph_node_count(&mg.graph);
    proof {
        assert(mg.labels().len() == mg.nodes().len());
        assert(views(labels@).len() == labels@.len());
    }
    let scc_of = scc_index_of(sccs, n, Ghost(kept_seq));
    let cond = condense(mg, labels, applied, sccs, &scc_of);
    let ghost succ = cond@.map_values(|v: Vec<usize>| v@);
    let layer_of = compute_layers(&cond);
    let (locs, files) = node_weights(mg);
    let c = sccs.len();
    let mut mods: Vec<Vec<String>> = Vec::new();
    let mut bases: Vec<String> = Vec::new();
    let mut i: usize = 0;
    while i < c
        invariant
            c == sccs@.len(),
            cv == comp_views(sccs@),
            is_scc_decomposition(mg.nodes().len(), kept_seq, cv),
            labels@.len() == n,
            n == mg.nodes().len(),
            views(labels@) == mg.labels(),
            i <= c,
            mods@.len() == i,
            bases@.len() == i,
            forall|j: int| 0 <= j < i ==> views((#[trigger] mods@[j])@) == sorted_seqs(comp_labels(mg.labels(), cv[j])),
            forall|j: int| 0 <= j < i ==> (#[trigger] bases@[j])@ == base_names(*mg, prefix@, cv)[j],
        decreases c - i,
    {
        let comp = &sccs[i];
        proof {
            assert(comp@ == cv[i as int]);
            assert forall|q: int| 0 <= q < comp@.len() implies (#[trigger] comp@[q]) < labels@.len() by {
                assert(cv[i as int][q] < n);
            }
        }
        let (m, b) = describe_comp(labels, prefix, comp);
        mods.push(m);
        bases.push(b);
        i = i + 1;
    }
    let names = dedup_crate_names(&bases);
    proof {
        assert(views(bases@) =~= base_names(*mg, prefix@, cv));
    }
    let mut proposals: Vec<CrateProposal> = Vec::new();
    let mut i: usize = 0;
    while i < c
        invariant
            c == sccs@.len(),
            cv == comp_views(sccs@),
            is_scc_decomposition(mg.nodes().len(), kept_seq, cv),
            n == mg.nodes().len(),
            views(labels@) == mg.labels(),
            mods@.len() == c,
            forall|j: int| 0 <= j < c ==> views((#[trigger] mods@[j])@) == sorted_seqs(comp_labels(mg.labels(), cv[j])),
            views(bases@) == base_names(*mg, prefix@, cv),
            names@.len() == c,
            forall|j: int| 0 <= j < c ==> (#[trigger] names@[j])@ == deduped_name(views(bases@), j),
            cond@.len() == c,
            succ == cond@.map_values(|v: Vec<usize>| v@),
            is_condensation(*mg, applied@, cv, succ),
            points_down(succ),
            layer_of@.len() == c,
            forall|j: int| 0 <= j < c ==> layer_of@[j] == chain_len(succ, j),
            locs@.len() == n,
            files@.len() == n,
            forall|v: int| 0 <= v < n ==> #[trigger] node_locs(*mg)[v] == locs@[v] as nat,
            forall|v: int| 0 <= v < n ==> #[trigger] node_files(*mg)[v] == files@[v] as nat,
            seq_sum(node_locs(*mg)) <= usize::MAX,
            seq_sum(node_files(*mg)) <= usize::MAX,
            i <= c,
            proposals@.len() == i,
            forall|j: int| 0 <= j < i ==> proposal_of(#[trigger] proposals@[j], *mg, prefix@, cv, succ, j),
        decreases c - i,
    {
        let comp = &sccs[i];
        proof {
            assert(comp@ == cv[i as int]);
            assert(node_locs(*mg).len() == n);
            assert(node_files(*mg).len() == n);
            assert forall|q: int| 0 <= q < comp@.len() implies (#[trigger] comp@[q]) < locs@.len() by {
                assert(cv[i as int][q] < n);
            }
        }
        let loc = comp_sum(&locs, comp, Ghost(node_locs(*mg)));
        let file_count = comp_sum(&files, comp, Ghost(node_files(*mg)));
        let row = &cond[i];
        proof {
            assert(row@ == succ[i as int]);
            assert forall|j: int| 0 <= j < row@.len() implies (#[trigger] row@[j]) < names@.len() by {
                assert(succ[i as int][j] < i);
            }
        }
        let depends_on = dep_names(row, &names);
        proof {
            assert(row@.map_values(|t: usize| views(names@)[t as int])
                =~= succ[i as int].map_values(|t: usize| deduped_name(base_names(*mg, prefix@, cv), t as int))) by {
                assert forall|j: int| 0 <= j < row@.len() implies views(names@)[row@[j] as int] == #[trigger] deduped_name(base_names(*mg, prefix@, cv), row@[j] as int) by {
                    assert(row@[j] < c);
                    assert(names@[row@[j] as int]@ == deduped_name(views(bases@), row@[j] as int));
                }
            }
        }
        let p = CrateProposal {
            crate_name: names[i].clone(),
            modules: clone_strings(&mods[i]),
            loc,
            file_count,
            layer: layer_of[i],
            depends_on,
            is_cycle: comp.len() > 1,
            scc: i,
        };
        proposals.push(p);
        i = i + 1;
    }
    proof {
        assert forall|i: int| 0 <= i < proposals@.len() implies (#[trigger] proposals@[i]).layer < proposals@.len() by {
            lemma_chain_len(succ, i);
        }
    }
    let layers = group_layers(&proposals);
    (proposals, layers, Ghost(succ))
}

/// The component of `v` in a decomposition.
pub open spec fn comp_of(comps: Seq<Seq<usize>>, v: int) -> int {
    choose|c: int| in_comp(comps, c, v)
}

/// `a` ranks strictly below `b`: an earlier raw component, or the same one
/// and an earlier position in its order.
pub open spec fn below(raw: Seq<Seq<usize>>, gpos: Seq<int>, a: int, b: int) -> bool {
    comp_of(raw, a) < comp_of(raw, b) || (comp_of(raw, a) == comp_of(raw, b) && gpos[a] < gpos[b])
}

/// Every edge joins existing nodes.
pub open spec fn edges_valid(mg: ModuleGraph) -> bool {
    forall|k: int| 0 <= k < mg.ends().len() ==> (#[trigger] mg.ends()[k]).0 < mg.nodes().len() && mg.ends()[k].1 < mg.nodes().len()
}

/// Cutting every edge that points upward within its raw component leaves
/// only edges that go strictly down the ranking (or are self-loops).
pub open spec fn cuts_cover_upward(mg: ModuleGraph, raw: Seq<Seq<usize>>, gpos: Seq<int>, cuts: Seq<LabelEdge>) -> bool {
    forall|k: int, c: int| 0 <= k < mg.ends().len() && mg.ends()[k].0 != mg.ends()[k].1
        && #[trigger] in_comp(raw, c, mg.ends()[k].0 as int) && in_comp(raw, c, mg.ends()[k].1 as int)
        && upward(gpos, #[trigger] mg.ends()[k])
        ==> cut_listed(cuts, mg.labels()[mg.ends()[k].0 as int], mg.labels()[mg.ends()[k].1 as int])
}

/// Positions are distinct within each raw component.
pub open spec fn positions_distinct(raw: Seq<Seq<usize>>, gpos: Seq<int>) -> bool {
    forall|c: int, a: int, b: int| #[trigger] in_comp(raw, c, a) && #[trigger] in_comp(raw, c, b) && a != b ==> gpos[a] != gpos[b]
}

proof fn lemma_kept_step(mg: ModuleGraph, raw: Seq<Seq<usize>>, gpos: Seq<int>, cuts: Seq<LabelEdge>, a: int, b: int)
    requires
        edges_valid(mg),
        is_scc_decomposition(mg.nodes().len(), mg.ends(), raw),
        positions_distinct(raw, gpos),
        cuts_cover_upward(mg, raw, gpos, cuts),
        has_edge(kept_edges(mg.ends(), mg.labels(), cuts), a, b),
    ensures
        0 <= b < mg.nodes().len(),
        0 <= a < mg.nodes().len(),
        a == b || below(raw, gpos, b, a),
{
    let kept_seq = kept_edges(mg.ends(), mg.labels(), cuts);
    lemma_kept_edges(mg.ends(), mg.labels(), cuts);
    let x = choose|x: int| 0 <= x < kept_seq.len() && (#[trigger] kept_seq[x]).0 as int == a && kept_seq[x].1 as int == b;
    let k = choose|k: int| 0 <= k < mg.ends().len() && #[trigger] mg.ends()[k] == kept_seq[x]
        && !cut_listed(cuts, mg.labels()[mg.ends()[k].0 as int], mg.labels()[mg.ends()[k].1 as int]);
    assert(mg.ends()[k].0 as int == a && mg.ends()[k].1 as int == b);
    assert(mg.ends()[k].0 < mg.nodes().len() && mg.ends()[k].1 < mg.nodes().len());
    if a != b {
        assert(covered(raw, a));
        assert(covered(raw, b));
        let ca = comp_of(raw, a);
        let cb = comp_of(raw, b);
        assert(in_comp(raw, ca, a));
        assert(in_comp(raw, cb, b));
        if ca != cb {
            assert(in_comp(raw, ca, mg.ends()[k].0 as int));
            assert(in_comp(raw, cb, mg.ends()[k].1 as int));
        } else {
            assert(in_comp(raw, ca, mg.ends()[k].0 as int));
            assert(!upward(gpos, mg.ends()[k]));
        }
    }
}

proof fn lemma_kept_path(mg: ModuleGraph, raw: Seq<Seq<usize>>, gpos: Seq<int>, cuts: Seq<LabelEdge>, p: Seq<int>)
    requires
        edges_valid(mg),
        is_scc_decomposition(mg.nodes().len(), mg.ends(), raw),
        positions_distinct(raw, gpos),
        cuts_cover_upward(mg, raw, gpos, cuts),
        is_path(kept_edges(mg.ends(), mg.labels(), cuts), p),
        0 <= p[0] < mg.nodes().len(),
    ensures
        p.last() == p[0] || below(raw, gpos, p.last(), p[0]),
    decreases p.len(),
{
    let kept_seq = kept_edges(mg.ends(), mg.labels(), cuts);
    if p.len() >= 2 {
        let q = p.drop_last();
        assert forall|i: int| 0 <= i < q.len() - 1 implies #[trigger] path_step(kept_seq, q, i) by {
            assert(path_step(kept_seq, p, i));
        }
        lemma_kept_path(mg, raw, gpos, cuts, q);
        assert(path_step(kept_seq, p, p.len() - 2));
        lemma_kept_step(mg, raw, gpos, cuts, p[p.len() - 2], p[p.len() - 1]);
    }
}

/// Law: once every edge that points upward in its raw component's order is
/// cut, no two distinct modules remain on a common cycle, so every component
/// of what is left is a single module.
pub proof fn lemma_cuts_break_cycles(
    mg: ModuleGraph,
    raw: Seq<Seq<usize>>,
    gpos: Seq<int>,
    cuts: Seq<LabelEdge>,
    comps: Seq<Seq<usize>>,
)
    requires
        edges_valid(mg),
        is_scc_decomposition(mg.nodes().len(), mg.ends(), raw),
        positions_distinct(raw, gpos),
        cuts_cover_upward(mg, raw, gpos, cuts),
        is_scc_decomposition(mg.nodes().len(), kept_edges(mg.ends(), mg.labels(), cuts), comps),
    ensures
        forall|c: int| 0 <= c < comps.len() ==> (#[trigger] comps[c]).len() == 1,
{
    let kept_seq = kept_edges(mg.ends(), mg.labels(), cuts);
    assert forall|c: int| 0 <= c < comps.len() implies (#[trigger] comps[c]).len() == 1 by {
        if comps[c].len() > 1 {
            let a = comps[c][0] as int;
            let b = comps[c][1] as int;
            assert(in_comp(comps, c, a));
            assert(in_comp(comps, c, b));
            assert(mutual(kept_seq, a, b));
            let p1 = choose|p: Seq<int>| #[trigger] is_path(kept_seq, p) && p[0] == a && p.last() == b;
            let p2 = choose|p: Seq<int>| #[trigger] is_path(kept_seq, p) && p[0] == b && p.last() == a;
            lemma_kept_path(mg, raw, gpos, cuts, p1);
            lemma_kept_path(mg, raw, gpos, cuts, p2);
            assert(a != b);
        }
    }
}

/// `be` reports edge `src` between two distinct modules of raw component
/// `be.scc`, pointing upward in that component's order.
pub open spec fn raw_cut(be: BackEdge, mg: ModuleGraph, raw: Seq<Seq<usize>>, gpos: Seq<int>, src: int) -> bool {
    &&& 0 <= src < mg.ends().len()
    &&& mg.ends()[src].0 != mg.ends()[src].1
    &&& in_comp(raw, be.scc as int, mg.ends()[src].0 as int)
    &&& in_comp(raw, be.scc as int, mg.ends()[src].1 as int)
    &&& reports_edge(be, mg, src, be.scc)
    &&& upward(gpos, mg.ends()[src])
}

/// The members of `comp` carry pairwise different labels.
pub open spec fn labels_distinct_in(labels: Seq<Seq<char>>, comp: Seq<usize>) -> bool {
    forall|x: int, y: int| 0 <= x < comp.len() && 0 <= y < comp.len() && x != y
        ==> labels[#[trigger] comp[x] as int] != labels[#[trigger] comp[y] as int]
}

/// Within each component whose labels differ, a module named earlier in the
/// pinned order `spec` than another (or named while the other is not) comes
/// before it.
pub open spec fn pins_respected(mg: ModuleGraph, raw: Seq<Seq<usize>>, gpos: Seq<int>, spec: Seq<Seq<char>>) -> bool {
    forall|c: int, a: int, b: int| #[trigger] in_comp(raw, c, a) && #[trigger] in_comp(raw, c, b)
        && labels_distinct_in(mg.labels(), raw[c])
        && pin_rank(spec, mg.labels()[a]) < pin_rank(spec, mg.labels()[b]) ==> gpos[a] < gpos[b]
}

/// The recommended cuts of every multi-module raw component, in component
/// order.
fn collect_cuts(
    mg: &ModuleGraph,
    labels: &Vec<String>,
    raw: &Vec<Vec<usize>>,
    respect_order: Option<&[String]>,
) -> (r: (Vec<BackEdge>, Ghost<Seq<int>>, Ghost<Seq<int>>))
    requires
        views(labels@) == mg.labels(),
        edges_valid(*mg),
        is_scc_decomposition(mg.nodes().len(), mg.ends(), comp_views(raw@)),
        occurrence_total(*mg) <= i64::MAX,
    ensures
        ordered_by(*mg, comp_views(raw@), r.1@, pin_of(respect_order)),
        tie_order(r.0@, r.2@),
        r.1@.len() == mg.nodes().len(),
        positions_distinct(comp_views(raw@), r.1@),
        r.2@.len() == r.0@.len(),
        r.2@.no_duplicates(),
        forall|i: int| 0 <= i < r.0@.len() ==> raw_cut(#[trigger] r.0@[i], *mg, comp_views(raw@), r.1@, r.2@[i]),
        forall|k: int, c: int| 0 <= k < mg.ends().len() && mg.ends()[k].0 != mg.ends()[k].1
            && #[trigger] in_comp(comp_views(raw@), c, mg.ends()[k].0 as int) && in_comp(comp_views(raw@), c, mg.ends()[k].1 as int)
            && upward(r.1@, #[trigger] mg.ends()[k]) ==> r.2@.contains(k),
        respect_order matches Some(spec) ==> pins_respected(*mg, comp_views(raw@), r.1@, views(spec@)),
{
    let ghost cv = comp_views(raw@);
    let ghost n = mg.nodes().len();
    let mut out: Vec<BackEdge> = Vec::new();
    let ghost mut gpos: Seq<int> = Seq::new(n, |v: int| 0int);
    let ghost mut src: Seq<int> = Seq::empty();
    let mut i: usize = 0;
    while i < raw.len()
        invariant
            views(labels@) == mg.labels(),
            cv == comp_views(raw@),
            is_scc_decomposition(n, mg.ends(), cv),
            n == mg.nodes().len(),
            occurrence_total(*mg) <= i64::MAX,
            i <= raw@.len(),
            gpos.len() == n,
            forall|c: int, a: int, b: int| 0 <= c < i && #[trigger] in_comp(cv, c, a) && #[trigger] in_comp(cv, c, b) && a != b ==> gpos[a] != gpos[b],
            src.len() == out@.len(),
            src.no_duplicates(),
            forall|j: int| 0 <= j < out@.len() ==> (#[trigger] out@[j]).scc < i && raw_cut(out@[j], *mg, cv, gpos, src[j]),
            forall|k: int, c: int| 0 <= c < i && 0 <= k < mg.ends().len() && mg.ends()[k].0 != mg.ends()[k].1
                && #[trigger] in_comp(cv, c, mg.ends()[k].0 as int) && in_comp(cv, c, mg.ends()[k].1 as int)
                && upward(gpos, #[trigger] mg.ends()[k]) ==> src.contains(k),
            edges_valid(*mg),
            forall|c: int| 0 <= c < i && cv[c].len() > 1
                ==> #[trigger] ordered_positions(*mg, cv[c], gpos, pin_of(respect_order)),
            tie_order(out@, src),
            respect_order matches Some(spec) ==> forall|c: int, a: int, b: int|
                0 <= c < i && #[trigger] in_comp(cv, c, a) && #[trigger] in_comp(cv, c, b)
                && labels_distinct_in(mg.labels(), cv[c])
                && pin_rank(views(spec@), mg.labels()[a]) < pin_rank(views(spec@), mg.labels()[b]) ==> gpos[a] < gpos[b],
        decreases raw@.len() - i,
    {
        let comp = &raw[i];
        proof {
            assert(comp@ == cv[i as int]);
        }
        if comp.len() > 1 {
            proof {
                assert forall|q: int| 0 <= q < comp@.len() implies (#[trigger] comp@[q]) < mg.nodes().len() by {
                    assert(cv[i as int][q] < n);
                }
            }
            let (mut bes, gp, sr) = scc_back_edges(mg, labels, comp, i, respect_order);
            let ghost old_gpos = gpos;
            let ghost old_src = src;
            let ghost old_out = out@;
            let ghost new_bes = bes@;
            proof {
                gpos = Seq::new(n, |v: int| if comp@.contains(v as usize) { gp@[v] } else { old_gpos[v] });
                src = old_src + sr@;
            }
            out.append(&mut bes);
            proof {
                // Members of this component keep the positions just computed;
                // other nodes keep theirs.
                assert forall|c: int, a: int, b: int| 0 <= c < i + 1 && #[trigger] in_comp(cv, c, a) && #[trigger] in_comp(cv, c, b) && a != b
                    implies gpos[a] != gpos[b] by {
                    assert(cv[c].contains(a as usize));
                    assert(cv[c].contains(b as usize));
                    let ia = choose|ia: int| 0 <= ia < cv[c].len() && cv[c][ia] == a as usize;
                    let ib = choose|ib: int| 0 <= ib < cv[c].len() && cv[c][ib] == b as usize;
                    assert(a < n && b < n);
                    if c == i {
                        assert(comp@.contains(a as usize));
                        assert(comp@.contains(b as usize));
                        assert(gpos[a] == gp@[a]);
                        assert(gpos[b] == gp@[b]);
                        assert(gp@[(a as usize) as int] != gp@[(b as usize) as int]);
                    } else {
                        if comp@.contains(a as usize) {
                            assert(in_comp(cv, i as int, a));
                        }
                        if comp@.contains(b as usize) {
                            assert(in_comp(cv, i as int, b));
                        }
                        assert(gpos[a] == old_gpos[a]);
                        assert(gpos[b] == old_gpos[b]);
                    }
                }
                {
                    assert forall|c: int| 0 <= c < i + 1 && cv[c].len() > 1 implies #[trigger] ordered_positions(*mg, cv[c], gpos, pin_of(respect_order)) by {
                        if c == i {
                            assert forall|v: usize| comp@.contains(v) implies gp@[v as int] == gpos[v as int] by {
                                let q = choose|q: int| 0 <= q < comp@.len() && comp@[q] == v;
                                assert(cv[i as int][q] < n);
                            }
                            lemma_positions_agree(*mg, comp@, gp@, gpos, pin_of(respect_order));
                        } else {
                            assert forall|v: usize| cv[c].contains(v) implies old_gpos[v as int] == gpos[v as int] by {
                                let q = choose|q: int| 0 <= q < cv[c].len() && cv[c][q] == v;
                                assert(cv[c][q] < n);
                                assert(in_comp(cv, c, v as int));
                                if comp@.contains(v) {
                                    assert(in_comp(cv, i as int, v as int));
                                }
                            }
                            lemma_positions_agree(*mg, cv[c], old_gpos, gpos, pin_of(respect_order));
                        }
                    }
                }
                if respect_order is Some {
                    let sv = views(respect_order->0@);
                    assert forall|c: int, a: int, b: int| 0 <= c < i + 1 && #[trigger] in_comp(cv, c, a) && #[trigger] in_comp(cv, c, b)
                        && labels_distinct_in(mg.labels(), cv[c])
                        && pin_rank(sv, mg.labels()[a]) < pin_rank(sv, mg.labels()[b]) implies gpos[a] < gpos[b] by {
                        assert(cv[c].contains(a as usize));
                        assert(cv[c].contains(b as usize));
                        if c == i {
                            assert(comp@.contains(a as usize));
                            assert(comp@.contains(b as usize));
                            assert(gpos[a] == gp@[a]);
                            assert(gpos[b] == gp@[b]);
                            assert(gp@[(a as usize) as int] < gp@[(b as usize) as int]);
                        } else {
                            if comp@.contains(a as usize) {
                                assert(in_comp(cv, i as int, a));
                            }
                            if comp@.contains(b as usize) {
                                assert(in_comp(cv, i as int, b));
                            }
                            assert(gpos[a] == old_gpos[a]);
                            assert(gpos[b] == old_gpos[b]);
                        }
                    }
                }
                assert forall|x: int, y: int| 0 <= x < y < out@.len() && !(#[trigger] out@[y]).key_lt(#[trigger] out@[x]) && !out@[x].key_lt(out@[y])
                    implies out@[x].scc < out@[y].scc || (out@[x].scc == out@[y].scc && src[x] < src[y]) by {
                    if y < old_out.len() {
                        assert(out@[x] == old_out[x] && out@[y] == old_out[y]);
                        assert(src[x] == old_src[x] && src[y] == old_src[y]);
                    } else if x >= old_out.len() {
                        let a = x - old_out.len();
                        let b = y - old_out.len();
                        assert(out@[x] == new_bes[a] && out@[y] == new_bes[b]);
                        assert(src[x] == sr@[a] && src[y] == sr@[b]);
                    } else {
                        let b = y - old_out.len();
                        assert(out@[x] == old_out[x]);
                        assert(out@[y] == new_bes[b]);
                        assert(reports_edge(new_bes[b], *mg, sr@[b], i));
                        assert(old_out[x].scc < i);
                    }
                }
                assert forall|x: int, y: int| 0 <= x < y < src.len() implies src[x] != src[y] by {
                    if x < old_src.len() && y >= old_src.len() {
                        let j = x;
                        let q = y - old_src.len();
                        assert(raw_cut(old_out[j], *mg, cv, old_gpos, old_src[j]));
                        assert(inner_edge(*mg, comp@, sr@[q]));
                        let e = mg.ends()[sr@[q]];
                        assert(in_comp(cv, i as int, e.0 as int));
                        if src[x] == src[y] {
                            assert(in_comp(cv, old_out[j].scc as int, e.0 as int));
                        }
                    } else if x >= old_src.len() {
                        assert(src[x] == sr@[x - old_src.len()]);
                        assert(src[y] == sr@[y - old_src.len()]);
                    }
                }
                assert forall|j: int| 0 <= j < out@.len() implies (#[trigger] out@[j]).scc < i + 1 && raw_cut(out@[j], *mg, cv, gpos, src[j]) by {
                    if j < old_out.len() {
                        assert(out@[j] == old_out[j]);
                        assert(raw_cut(old_out[j], *mg, cv, old_gpos, old_src[j]));
                        let e = mg.ends()[old_src[j]];
                        let c = old_out[j].scc as int;
                        assert(!comp@.contains(e.0)) by {
                            if comp@.contains(e.0) {
                                assert(in_comp(cv, i as int, e.0 as int));
                            }
                        }
                        assert(!comp@.contains(e.1)) by {
                            if comp@.contains(e.1) {
                                assert(in_comp(cv, i as int, e.1 as int));
                            }
                        }
                    } else {
                        let q = j - old_out.len();
                        assert(out@[j] == new_bes[q]);
                        assert(src[j] == sr@[q]);
                        let e = mg.ends()[sr@[q]];
                        assert(inner_edge(*mg, comp@, sr@[q]));
                        assert(in_comp(cv, i as int, e.0 as int));
                        assert(in_comp(cv, i as int, e.1 as int));
                    }
                }
                assert forall|k: int, c: int| 0 <= c < i + 1 && 0 <= k < mg.ends().len() && mg.ends()[k].0 != mg.ends()[k].1
                    && #[trigger] in_comp(cv, c, mg.ends()[k].0 as int) && in_comp(cv, c, mg.ends()[k].1 as int)
                    && upward(gpos, #[trigger] mg.ends()[k]) implies src.contains(k) by {
                    let e = mg.ends()[k];
                    if c == i {
                        assert(comp@.contains(e.0));
                        assert(comp@.contains(e.1));
                        assert(inner_edge(*mg, comp@, k));
                        assert(sr@.contains(k));
                        let q = choose|q: int| 0 <= q < sr@.len() && sr@[q] == k;
                        assert(src[old_src.len() + q] == k);
                    } else {
                        assert(!comp@.contains(e.0)) by {
                            if comp@.contains(e.0) {
                                assert(in_comp(cv, i as int, e.0 as int));
                            }
                        }
                        assert(!comp@.contains(e.1)) by {
                            if comp@.contains(e.1) {
                                assert(in_comp(cv, i as int, e.1 as int));
                            }
                        }
                        assert(upward(old_gpos, e));
                        assert(old_src.contains(k));
                        let q = choose|q: int| 0 <= q < old_src.len() && old_src[q] == k;
                        assert(src[q] == k);
                    }
                }
            }
        } else {
            proof {
                assert forall|c: int, a: int, b: int| 0 <= c < i + 1 && #[trigger] in_comp(cv, c, a) && #[trigger] in_comp(cv, c, b) && a != b
                    implies gpos[a] != gpos[b] by {
                    if c == i {
                        assert(comp@.contains(a as usize));
                        assert(comp@.contains(b as usize));
                        let ia = choose|ia: int| 0 <= ia < comp@.len() && comp@[ia] == a as usize;
                        let ib = choose|ib: int| 0 <= ib < comp@.len() && comp@[ib] == b as usize;
                        assert(ia == 0 && ib == 0);
                    }
                }
                if respect_order is Some {
                    let sv = views(respect_order->0@);
                    assert forall|c: int, a: int, b: int| 0 <= c < i + 1 && #[trigger] in_comp(cv, c, a) && #[trigger] in_comp(cv, c, b)
                        && labels_distinct_in(mg.labels(), cv[c])
                        && pin_rank(sv, mg.labels()[a]) < pin_rank(sv, mg.labels()[b]) implies gpos[a] < gpos[b] by {
                        if c == i {
                            assert(comp@.contains(a as usize));
                            assert(comp@.contains(b as usize));
                            let ia = choose|ia: int| 0 <= ia < comp@.len() && comp@[ia] == a as usize;
                            let ib = choose|ib: int| 0 <= ib < comp@.len() && comp@[ib] == b as usize;
                            assert(ia == 0 && ib == 0);
                        }
                    }
                }
                assert forall|k: int, c: int| 0 <= c < i + 1 && 0 <= k < mg.ends().len() && mg.ends()[k].0 != mg.ends()[k].1
                    && #[trigger] in_comp(cv, c, mg.ends()[k].0 as int) && in_comp(cv, c, mg.ends()[k].1 as int)
                    && upward(gpos, #[trigger] mg.ends()[k]) implies src.contains(k) by {
                    if c == i {
                        let e = mg.ends()[k];
                        assert(comp@.contains(e.0));
                        assert(comp@.contains(e.1));
                        let ia = choose|ia: int| 0 <= ia < comp@.len() && comp@[ia] == e.0;
                        let ib = choose|ib: int| 0 <= ib < comp@.len() && comp@[ib] == e.1;
                    }
                }
            }
        }
        i = i + 1;
    }
    proof {
        assert forall|c: int, a: int, b: int| #[trigger] in_comp(cv, c, a) && #[trigger] in_comp(cv, c, b) && a != b implies gpos[a] != gpos[b] by {
            assert(0 <= c < i);
        }
        if respect_order is Some {
            let sv = views(respect_order->0@);
            assert forall|c: int, a: int, b: int| #[trigger] in_comp(cv, c, a) && #[trigger] in_comp(cv, c, b)
                && labels_distinct_in(mg.labels(), cv[c])
                && pin_rank(sv, mg.labels()[a]) < pin_rank(sv, mg.labels()[b]) implies gpos[a] < gpos[b] by {
                assert(0 <= c < i);
            }
        }
    }
    (out, Ghost(gpos), Ghost(src))
}

/// Total occurrences over a list of cuts.
pub open spec fn cost_sum(bes: Seq<BackEdge>) -> nat
    decreases bes.len(),
{
    if bes.len() == 0 {
        0
    } else {
        cost_sum(bes.drop_last()) + bes.last().occurrence_count as nat
    }
}

/// How many of the cheapest-first cuts fit, taken in order until the next
/// one would push the cumulative occurrence count past `m`.
pub open spec fn taken_within(bes: Seq<BackEdge>, m: nat) -> nat
    decreases bes.len(),
{
    if bes.len() == 0 || bes[0].occurrence_count > m {
        0
    } else {
        1 + taken_within(bes.drop_first(), (m - bes[0].occurrence_count) as nat)
    }
}

/// How many of the recommended cuts a budget applies.
pub open spec fn applied_count_spec(budget: CutBudget, bes: Seq<BackEdge>) -> nat {
    match budget {
        CutBudget::All => bes.len(),
        CutBudget::MaxCuts(k) => if k < bes.len() { k as nat } else { bes.len() },
        CutBudget::Refs(m) => taken_within(bes, m as nat),
    }
}

/// `applied` lists the module pairs of `bes`, in order.
pub open spec fn pairs_of(applied: Seq<LabelEdge>, bes: Seq<BackEdge>) -> bool {
    &&& applied.len() == bes.len()
    &&& forall|i: int| 0 <= i < bes.len() ==> (#[trigger] applied[i]).source@ == bes[i].source_module@
        && applied[i].target@ == bes[i].target_module@
}

proof fn lemma_cost_sum_prefix(bes: Seq<BackEdge>, k: int)
    requires
        0 <= k <= bes.len(),
    ensures
        cost_sum(bes.take(k)) <= cost_sum(bes),
    decreases bes.len(),
{
    if k < bes.len() {
        lemma_cost_sum_prefix(bes.drop_last(), k);
        assert(bes.drop_last().take(k) =~= bes.take(k));
    } else {
        assert(bes.take(k) =~= bes);
    }
}

proof fn lemma_cost_sum_picked(bes: Seq<BackEdge>, w: Seq<nat>, src: Seq<int>)
    requires
        src.len() == bes.len(),
        forall|i: int| 0 <= i < bes.len() ==> 0 <= #[trigger] src[i] < w.len() && bes[i].occurrence_count == w[src[i]],
    ensures
        cost_sum(bes) == picked_sum(w, src),
    decreases bes.len(),
{
    if bes.len() > 0 {
        lemma_cost_sum_picked(bes.drop_last(), w, src.drop_last());
    }
}

proof fn lemma_taken_within_bound(bes: Seq<BackEdge>, m: nat)
    ensures
        taken_within(bes, m) <= bes.len(),
    decreases bes.len(),
{
    if bes.len() > 0 && bes[0].occurrence_count <= m {
        lemma_taken_within_bound(bes.drop_first(), (m - bes[0].occurrence_count) as nat);
    }
}

/// The cuts a budget of `m` occurrences takes cost at most `m`.
proof fn lemma_taken_within_cost(bes: Seq<BackEdge>, m: nat)
    ensures
        cost_sum(bes.take(taken_within(bes, m) as int)) <= m,
    decreases bes.len(),
{
    let t = taken_within(bes, m);
    if bes.len() == 0 || bes[0].occurrence_count > m {
        assert(bes.take(0) =~= Seq::<BackEdge>::empty());
    } else {
        let rest = bes.drop_first();
        let m2 = (m - bes[0].occurrence_count) as nat;
        lemma_taken_within_cost(rest, m2);
        lemma_taken_within_bound(rest, m2);
        assert(t == 1 + taken_within(rest, m2));
        lemma_cost_sum_first(bes.take(t as int));
        assert(bes.take(t as int).drop_first() =~= rest.take(taken_within(rest, m2) as int));
    }
}

/// Sum of costs splits off the first cut.
proof fn lemma_cost_sum_first(bes: Seq<BackEdge>)
    requires
        bes.len() > 0,
    ensures
        cost_sum(bes) == bes[0].occurrence_count + cost_sum(bes.drop_first()),
    decreases bes.len(),
{
    if bes.len() > 1 {
        lemma_cost_sum_first(bes.drop_last());
        assert(bes.drop_last().drop_first() =~= bes.drop_first().drop_last());
        assert(bes.drop_first().last() == bes.last());
        assert(bes.drop_last()[0] == bes[0]);
    } else {
        assert(bes.drop_first() =~= Seq::<BackEdge>::empty());
        assert(bes.drop_last() =~= Seq::<BackEdge>::empty());
        assert(cost_sum(Seq::<BackEdge>::empty()) == 0);
    }
}

/// The cheapest-first order on cuts is a strict order.
/// Cuts ranked equal (same occurrence count and source module) come in
/// component order, and within a component in edge order; `src` gives the
/// edge each cut reports.
pub open spec fn tie_order(cuts: Seq<BackEdge>, src: Seq<int>) -> bool {
    forall|i: int, j: int| 0 <= i < j < cuts.len() && !(#[trigger] cuts[j]).key_lt(#[trigger] cuts[i]) && !cuts[i].key_lt(cuts[j])
        ==> cuts[i].scc < cuts[j].scc || (cuts[i].scc == cuts[j].scc && src[i] < src[j])
}

/// `src[i]` is the edge of `mg` that cut `i` reports.
pub open spec fn cut_sources(cuts: Seq<BackEdge>, mg: ModuleGraph, src: Seq<int>) -> bool {
    &&& src.len() == cuts.len()
    &&& forall|i: int| 0 <= i < cuts.len() ==> 0 <= #[trigger] src[i] < mg.ends().len() && reports_edge(cuts[i], mg, src[i], cuts[i].scc)
}

/// The cut ranking is a strict weak order.
proof fn lemma_cut_weak(s: Seq<BackEdge>)
    ensures
        key_weak_on(s),
{
    lemma_cut_order(s);
    assert forall|a: BackEdge, b: BackEdge, c: BackEdge| s.contains(a) && s.contains(b) && s.contains(c) && #[trigger] a.key_lt(b) && !c.key_lt(b)
        implies #[trigger] a.key_lt(c) by {
        if c.occurrence_count == b.occurrence_count && a.occurrence_count == b.occurrence_count {
            if b.source_module@ != c.source_module@ {
                crate::text::lemma_seq_lt_total(b.source_module@, c.source_module@);
                crate::text::lemma_seq_lt_transitive(a.source_module@, b.source_module@, c.source_module@);
            }
        }
    }
}

proof fn lemma_cut_order(s: Seq<BackEdge>)
    ensures
        key_transitive_on(s),
{
    assert forall|a: BackEdge| s.contains(a) implies !(#[trigger] a.key_lt(a)) by {
        crate::text::lemma_seq_lt_irreflexive(a.source_module@);
    }
    assert forall|a: BackEdge, b: BackEdge, c: BackEdge| s.contains(a) && s.contains(b) && s.contains(c) && #[trigger] a.key_lt(b) && #[trigger] b.key_lt(c) implies a.key_lt(c) by {
        if a.occurrence_count == b.occurrence_count && b.occurrence_count == c.occurrence_count {
            crate::text::lemma_seq_lt_transitive(a.source_module@, b.source_module@, c.source_module@);
        }
    }
}

/// The foundation-first order on proposals is a strict order.
proof fn lemma_proposal_order(s: Seq<CrateProposal>)
    ensures
        key_transitive_on(s),
{
    assert forall|a: CrateProposal| s.contains(a) implies !(#[trigger] a.key_lt(a)) by {
        crate::text::lemma_seq_lt_irreflexive(a.crate_name@);
    }
    assert forall|a: CrateProposal, b: CrateProposal, c: CrateProposal| s.contains(a) && s.contains(b) && s.contains(c) && #[trigger] a.key_lt(b) && #[trigger] b.key_lt(c) implies a.key_lt(c) by {
        if a.layer == b.layer && b.layer == c.layer {
            crate::text::lemma_seq_lt_transitive(a.crate_name@, b.crate_name@, c.crate_name@);
        }
    }
}

/// How many of the cuts (cheapest first) `budget` applies.
fn applied_count(bes: &Vec<BackEdge>, budget: CutBudget) -> (r: usize)
    ensures
        r == applied_count_spec(budget, bes@),
        r <= bes@.len(),
{
    match budget {
        CutBudget::All => bes.len(),
        CutBudget::MaxCuts(k) => if k < bes.len() { k } else { bes.len() },
        CutBudget::Refs(m) => {
            let mut acc: usize = 0;
            let mut taken: usize = 0;
            let mut full = false;
            proof {
                assert(bes@.skip(0) =~= bes@);
            }
            while taken < bes.len() && !full
                invariant
                    taken <= bes@.len(),
                    acc <= m,
                    taken_within(bes@, m as nat) == taken + taken_within(bes@.skip(taken as int), (m - acc) as nat),
                    full ==> taken_within(bes@.skip(taken as int), (m - acc) as nat) == 0,
                decreases bes@.len() - taken, if full { 0int } else { 1int },
            {
                let c = bes[taken].occurrence_count;
                proof {
                    assert(bes@.skip(taken as int)[0] == bes@[taken as int]);
                    assert(bes@.skip(taken as int).drop_first() =~= bes@.skip(taken + 1));
                }
                if c > m - acc {
                    full = true;
                } else {
                    acc = acc + c;
                    taken = taken + 1;
                }
            }
            proof {
                if !full {
                    assert(bes@.skip(taken as int).len() == 0);
                }
                lemma_taken_within_bound(bes@, m as nat);
            }
            taken
        },
    }
}

/// Total occurrences of the first `k` cuts.
pub(crate) fn cost_prefix(bes: &Vec<BackEdge>, k: usize) -> (r: usize)
    requires
        k <= bes@.len(),
        cost_sum(bes@) <= usize::MAX,
    ensures
        r == cost_sum(bes@.take(k as int)),
{
    let mut acc: usize = 0;
    let mut i: usize = 0;
    while i < k
        invariant
            k <= bes@.len(),
            cost_sum(bes@) <= usize::MAX,
            i <= k,
            acc == cost_sum(bes@.take(i as int)),
        decreases k - i,
    {
        proof {
            assert(bes@.take(i + 1).drop_last() =~= bes@.take(i as int));
            lemma_cost_sum_prefix(bes@, i + 1);
        }
        acc = acc + bes[i].occurrence_count;
        i = i + 1;
    }
    acc
}

/// The module pairs of the first `k` cuts.
pub(crate) fn cut_pairs(bes: &Vec<BackEdge>, k: usize) -> (r: Vec<LabelEdge>)
    requires
        k <= bes@.len(),
    ensures
        pairs_of(r@, bes@.take(k as int)),
{
    let mut r: Vec<LabelEdge> = Vec::new();
    let mut i: usize = 0;
    while i < k
        invariant
            k <= bes@.len(),
            i <= k,
            r@.len() == i,
            forall|j: int| 0 <= j < i ==> (#[trigger] r@[j]).source@ == bes@[j].source_module@ && r@[j].target@ == bes@[j].target_module@,
        decreases k - i,
    {
        r.push(LabelEdge { source: bes[i].source_module.clone(), target: bes[i].target_module.clone() });
        i = i + 1;
    }
    r
}

/// The label of some node of a multi-module component is `l`.
pub open spec fn in_multi(comps: Seq<Seq<usize>>, labels: Seq<Seq<char>>, l: Seq<char>) -> bool {
    exists|c: int, x: int| 0 <= c < comps.len() && comps[c].len() > 1 && 0 <= x < comps[c].len()
        && #[trigger] labels[comps[c][x] as int] == l
}

/// Labels of the nodes in multi-module components.
fn multi_labels(labels: &Vec<String>, comps: &Vec<Vec<usize>>) -> (r: Vec<String>)
    requires
        forall|c: int, x: int| 0 <= c < comps@.len() && 0 <= x < comps@[c]@.len() ==> (#[trigger] comps@[c]@[x]) < labels@.len(),
    ensures
        forall|l: Seq<char>| views(r@).contains(l) <==> in_multi(comp_views(comps@), views(labels@), l),
{
    let ghost cv = comp_views(comps@);
    let mut r: Vec<String> = Vec::new();
    let mut c: usize = 0;
    while c < comps.len()
        invariant
            forall|c: int, x: int| 0 <= c < comps@.len() && 0 <= x < comps@[c]@.len() ==> (#[trigger] comps@[c]@[x]) < labels@.len(),
            cv == comp_views(comps@),
            c <= comps@.len(),
            forall|l: Seq<char>| views(r@).contains(l) <==> exists|c2: int, x: int| 0 <= c2 < c && cv[c2].len() > 1 && 0 <= x < cv[c2].len()
                && #[trigger] views(labels@)[cv[c2][x] as int] == l,
        decreases comps@.len() - c,
    {
        let comp = &comps[c];
        assert(comp@ == cv[c as int]);
        if comp.len() > 1 {
            let mut x: usize = 0;
            while x < comp.len()
                invariant
                    forall|c: int, x: int| 0 <= c < comps@.len() && 0 <= x < comps@[c]@.len() ==> (#[trigger] comps@[c]@[x]) < labels@.len(),
                    cv == comp_views(comps@),
                    c < comps@.len(),
                    comp@ == cv[c as int],
                    comp@.len() > 1,
                    x <= comp@.len(),
                    forall|l: Seq<char>| views(r@).contains(l) <==> exists|c2: int, x2: int| ((0 <= c2 < c && 0 <= x2 < cv[c2].len()) || (c2 == c && 0 <= x2 < x)) && cv[c2].len() > 1
                        && #[trigger] views(labels@)[cv[c2][x2] as int] == l,
                decreases comp@.len() - x,
            {
                assert(comps@[c as int]@[x as int] < labels@.len());
                let ghost before = views(r@);
                r.push(labels[comp[x]].clone());
                proof {
                    assert(views(r@) =~= before.push(labels@[comp@[x as int] as int]@));
                    let nl = views(labels@)[cv[c as int][x as int] as int];
                    assert(views(r@).last() == nl);
                    assert forall|l: Seq<char>| views(r@).contains(l) <==> exists|c2: int, x2: int| ((0 <= c2 < c && 0 <= x2 < cv[c2].len()) || (c2 == c && 0 <= x2 < x + 1)) && cv[c2].len() > 1
                        && #[trigger] views(labels@)[cv[c2][x2] as int] == l by {
                        if views(r@).contains(l) {
                            let q = choose|q: int| 0 <= q < views(r@).len() && views(r@)[q] == l;
                            if q < before.len() {
                                assert(before[q] == l);
                                assert(before.contains(l));
                            } else {
                                assert(views(labels@)[cv[c as int][x as int] as int] == l);
                            }
                        }
                        if exists|c2: int, x2: int| ((0 <= c2 < c && 0 <= x2 < cv[c2].len()) || (c2 == c && 0 <= x2 < x + 1)) && cv[c2].len() > 1
                            && #[trigger] views(labels@)[cv[c2][x2] as int] == l {
                            let (c2, x2) = choose|c2: int, x2: int| ((0 <= c2 < c && 0 <= x2 < cv[c2].len()) || (c2 == c && 0 <= x2 < x + 1)) && cv[c2].len() > 1
                                && #[trigger] views(labels@)[cv[c2][x2] as int] == l;
                            if c2 == c && x2 == x {
                                assert(views(r@)[before.len() as int] == l);
                            } else {
                                assert(before.contains(l));
                                let q = choose|q: int| 0 <= q < before.len() && before[q] == l;
                                assert(views(r@)[q] == l);
                            }
                        }
                    }
                }
                x = x + 1;
            }
        }
        c = c + 1;
    }
    r
}

/// Is `x` one of the strings of `v`?
pub fn has_label(v: &Vec<String>, x: &String) -> (r: bool)
    ensures
        r == views(v@).contains(x@),
{
    let mut i: usize = 0;
    while i < v.len()
        invariant
            i <= v@.len(),
            forall|j: int| 0 <= j < i ==> v@[j]@ != x@,
        decreases v@.len() - i,
    {
        if v[i] == *x {
            proof {
                assert(views(v@)[i as int] == x@);
            }
            return true;
        }
        i = i + 1;
    }
    proof {
        if views(v@).contains(x@) {
            let j = choose|j: int| 0 <= j < views(v@).len() && views(v@)[j] == x@;
            assert(v@[j]@ == x@);
        }
    }
    false
}

/// Labels of the single-module components whose label satisfies `keep`, in
/// component order.
pub open spec fn single_labels(comps: Seq<Seq<usize>>, labels: Seq<Seq<char>>, keep: spec_fn(Seq<char>) -> bool) -> Seq<Seq<char>>
    decreases comps.len(),
{
    if comps.len() == 0 {
        Seq::empty()
    } else {
        let r = single_labels(comps.drop_last(), labels, keep);
        let c = comps.last();
        if c.len() == 1 && keep(labels[c[0] as int]) { r.push(labels[c[0] as int]) } else { r }
    }
}

/// Listed in `keep` and not in `skip`.
pub open spec fn listed_not(keep: Seq<Seq<char>>, skip: Seq<Seq<char>>) -> spec_fn(Seq<char>) -> bool {
    |l: Seq<char>| keep.contains(l) && !skip.contains(l)
}

/// The labels of single-module components that are listed in `keep` and not
/// in `skip`, sorted and deduplicated.
pub fn standalone_among(labels: &Vec<String>, comps: &Vec<Vec<usize>>, keep: &Vec<String>, skip: &Vec<String>) -> (r: Vec<String>)
    requires
        forall|c: int, x: int| 0 <= c < comps@.len() && 0 <= x < comps@[c]@.len() ==> (#[trigger] comps@[c]@[x]) < labels@.len(),
    ensures
        views(r@) == dedup_seq(sorted_seqs(single_labels(comp_views(comps@), views(labels@), listed_not(views(keep@), views(skip@))))),
{
    let ghost cv = comp_views(comps@);
    let ghost pred = listed_not(views(keep@), views(skip@));
    let mut out: Vec<String> = Vec::new();
    let mut c: usize = 0;
    while c < comps.len()
        invariant
            forall|c: int, x: int| 0 <= c < comps@.len() && 0 <= x < comps@[c]@.len() ==> (#[trigger] comps@[c]@[x]) < labels@.len(),
            cv == comp_views(comps@),
            pred == listed_not(views(keep@), views(skip@)),
            c <= comps@.len(),
            views(out@) == single_labels(cv.take(c as int), views(labels@), pred),
        decreases comps@.len() - c,
    {
        let comp = &comps[c];
        proof {
            assert(comp@ == cv[c as int]);
            assert(cv.take(c + 1).drop_last() =~= cv.take(c as int));
            assert(cv.take(c + 1).last() == comp@);
        }
        if comp.len() == 1 {
            assert(comps@[c as int]@[0] < labels@.len());
            let l = &labels[comp[0]];
            proof {
                assert(views(labels@)[comp@[0] as int] == l@);
            }
            if has_label(keep, l) && !has_label(skip, l) {
                let ghost before = views(out@);
                out.push(l.clone());
                proof {
                    assert(views(out@) =~= before.push(l@));
                }
            }
        }
        c = c + 1;
    }
    proof {
        assert(cv.take(comps@.len() as int) =~= cv);
    }
    dedup_strings(sort_strings(out))
}

/// Largest total LOC over the components (0 when there are none).
pub open spec fn largest_comp_loc(locs: Seq<nat>, comps: Seq<Seq<usize>>) -> nat
    decreases comps.len(),
{
    if comps.len() == 0 {
        0
    } else {
        let m = largest_comp_loc(locs, comps.drop_last());
        let x = picked_sum(locs, as_ints(comps.last()));
        if x > m { x } else { m }
    }
}

/// Largest total LOC over the components of a decomposition of the graph.
pub(crate) fn largest_loc_of(mg: &ModuleGraph, comps: &Vec<Vec<usize>>) -> (r: usize)
    requires
        seq_sum(node_locs(*mg)) <= usize::MAX,
        forall|c: int| 0 <= c < comps@.len() ==> (#[trigger] comps@[c])@.no_duplicates(),
        forall|c: int, x: int| 0 <= c < comps@.len() && 0 <= x < comps@[c]@.len() ==> (#[trigger] comps@[c]@[x]) < mg.nodes().len(),
    ensures
        r == largest_comp_loc(node_locs(*mg), comp_views(comps@)),
{
    let ghost cv = comp_views(comps@);
    let (locs, _files) = node_weights(mg);
    let mut best: usize = 0;
    let mut c: usize = 0;
    while c < comps.len()
        invariant
            seq_sum(node_locs(*mg)) <= usize::MAX,
            forall|c: int| 0 <= c < comps@.len() ==> (#[trigger] comps@[c])@.no_duplicates(),
            forall|c: int, x: int| 0 <= c < comps@.len() && 0 <= x < comps@[c]@.len() ==> (#[trigger] comps@[c]@[x]) < mg.nodes().len(),
            cv == comp_views(comps@),
            locs@.len() == mg.nodes().len(),
            forall|v: int| 0 <= v < mg.nodes().len() ==> #[trigger] node_locs(*mg)[v] == locs@[v] as nat,
            c <= comps@.len(),
            best == largest_comp_loc(node_locs(*mg), cv.take(c as int)),
        decreases comps@.len() - c,
    {
        let comp = &comps[c];
        proof {
            assert(comp@ == cv[c as int]);
            assert(cv.take(c + 1).drop_last() =~= cv.take(c as int));
            assert(node_locs(*mg).len() == mg.nodes().len());
            assert forall|q: int| 0 <= q < comp@.len() implies (#[trigger] comp@[q]) < locs@.len() by {
                assert(comps@[c as int]@[q] < mg.nodes().len());
            }
        }
        let x = comp_sum(&locs, comp, Ghost(node_locs(*mg)));
        if x > best {
            best = x;
        }
        c = c + 1;
    }
    proof {
        assert(cv.take(comps@.len() as int) =~= cv);
    }
    best
}

/// The module pairs of a list of cuts, as label edges.
pub open spec fn cut_edges(bes: Seq<BackEdge>) -> Seq<LabelEdge> {
    bes.map_values(|b: BackEdge| LabelEdge { source: b.source_module, target: b.target_module })
}

/// Cutting by a listing of the cuts' module pairs keeps the same edges.
pub proof fn lemma_pairs_kept(ends: Seq<(usize, usize)>, labels: Seq<Seq<char>>, applied: Seq<LabelEdge>, bes: Seq<BackEdge>)
    requires
        pairs_of(applied, bes),
    ensures
        kept_edges(ends, labels, applied) == kept_edges(ends, labels, cut_edges(bes)),
    decreases ends.len(),
{
    if ends.len() > 0 {
        lemma_pairs_kept(ends.drop_last(), labels, applied, bes);
        let e = ends.last();
        let s = labels[e.0 as int];
        let t = labels[e.1 as int];
        let ce = cut_edges(bes);
        if cut_listed(applied, s, t) {
            let i = choose|i: int| 0 <= i < applied.len() && (#[trigger] applied[i]).source@ == s && applied[i].target@ == t;
            assert(ce[i].source@ == s && ce[i].target@ == t);
        }
        if cut_listed(ce, s, t) {
            let i = choose|i: int| 0 <= i < ce.len() && (#[trigger] ce[i]).source@ == s && ce[i].target@ == t;
            assert(applied[i].source@ == s && applied[i].target@ == t);
        }
    }
}

/// Foundation first: lower layer, then by crate name.
impl SortKey for CrateProposal {
    open spec fn key_lt(self, other: Self) -> bool {
        self.layer < other.layer || (self.layer == other.layer && seq_lt(self.crate_name@, other.crate_name@))
    }

    fn sorts_before(&self, other: &Self) -> (b: bool) {
        self.layer < other.layer || (self.layer == other.layer && string_lt(&self.crate_name, &other.crate_name))
    }
}

/// Largest LOC over the proposals (0 when there are none).
pub open spec fn max_loc(props: Seq<CrateProposal>) -> nat
    decreases props.len(),
{
    if props.len() == 0 {
        0
    } else {
        let m = max_loc(props.drop_last());
        if props.last().loc > m { props.last().loc as nat } else { m }
    }
}

/// Number of proposals that hold a real cycle.
pub open spec fn cycle_total(props: Seq<CrateProposal>) -> nat
    decreases props.len(),
{
    if props.len() == 0 {
        0
    } else {
        cycle_total(props.drop_last()) + if props.last().is_cycle { 1nat } else { 0nat }
    }
}

fn largest_proposal_loc(props: &Vec<CrateProposal>) -> (r: usize)
    ensures
        r == max_loc(props@),
{
    let mut best: usize = 0;
    let mut i: usize = 0;
    while i < props.len()
        invariant
            i <= props@.len(),
            best == max_loc(props@.take(i as int)),
        decreases props@.len() - i,
    {
        proof {
            assert(props@.take(i + 1).drop_last() =~= props@.take(i as int));
        }
        if props[i].loc > best {
            best = props[i].loc;
        }
        i = i + 1;
    }
    proof {
        assert(props@.take(props@.len() as int) =~= props@);
    }
    best
}

proof fn lemma_cycle_total_bound(props: Seq<CrateProposal>)
    ensures
        cycle_total(props) <= props.len(),
    decreases props.len(),
{
    if props.len() > 0 {
        lemma_cycle_total_bound(props.drop_last());
    }
}

fn count_cycles(props: &Vec<CrateProposal>) -> (r: usize)
    ensures
        r == cycle_total(props@),
{
    let mut c: usize = 0;
    let mut i: usize = 0;
    while i < props.len()
        invariant
            i <= props@.len(),
            c == cycle_total(props@.take(i as int)),
        decreases props@.len() - i,
    {
        proof {
            assert(props@.take(i + 1).drop_last() =~= props@.take(i as int));
            lemma_cycle_total_bound(props@.take(i as int));
        }
        if props[i].is_cycle {
            c = c + 1;
        }
        i = i + 1;
    }
    proof {
        assert(props@.take(props@.len() as int) =~= props@);
    }
    c
}

proof fn lemma_cycle_total_zero(props: Seq<CrateProposal>)
    requires
        forall|i: int| 0 <= i < props.len() ==> !(#[trigger] props[i]).is_cycle,
    ensures
        cycle_total(props) == 0,
    decreases props.len(),
{
    if props.len() > 0 {
        lemma_cycle_total_zero(props.drop_last());
    }
}

/// A decomposition into single-module components has one per module.
proof fn lemma_singletons_count(n: nat, edges: Seq<(usize, usize)>, comps: Seq<Seq<usize>>)
    requires
        n <= usize::MAX,
        is_scc_decomposition(n, edges, comps),
        forall|c: int| 0 <= c < comps.len() ==> (#[trigger] comps[c]).len() == 1,
    ensures
        comps.len() == n,
{
    let heads = Seq::new(comps.len(), |c: int| comps[c][0] as int);
    assert forall|c: int| 0 <= c < heads.len() implies 0 <= #[trigger] heads[c] < n by {
        assert(comps[c][0] < n);
    }
    assert forall|a: int, b: int| 0 <= a < b < heads.len() implies heads[a] != heads[b] by {
        if heads[a] == heads[b] {
            assert(in_comp(comps, a, heads[a]));
            assert(in_comp(comps, b, heads[a]));
        }
    }
    crate::counting::lemma_distinct_below_len(heads, n as int);
    let owner = Seq::new(n, |v: int| comp_of(comps, v));
    assert forall|v: int| 0 <= v < owner.len() implies 0 <= #[trigger] owner[v] < comps.len() && comps[owner[v]][0] == v by {
        assert(covered(comps, v));
        assert(in_comp(comps, owner[v], v));
        let x = choose|x: int| 0 <= x < comps[owner[v]].len() && comps[owner[v]][x] == v as usize;
    }
    assert forall|a: int, b: int| 0 <= a < b < owner.len() implies owner[a] != owner[b] by {
        assert(comps[owner[a]][0] == a);
        assert(comps[owner[b]][0] == b);
    }
    crate::counting::lemma_distinct_below_len(owner, comps.len() as int);
}

/// `be` reports an edge between two distinct modules of raw component
/// `be.scc`.
pub open spec fn raw_cut_edge(be: BackEdge, mg: ModuleGraph, raw: Seq<Seq<usize>>, k: int) -> bool {
    &&& 0 <= k < mg.ends().len()
    &&& mg.ends()[k].0 != mg.ends()[k].1
    &&& in_comp(raw, be.scc as int, mg.ends()[k].0 as int)
    &&& in_comp(raw, be.scc as int, mg.ends()[k].1 as int)
    &&& reports_edge(be, mg, k, be.scc)
}

/// `be` is a cut inside a raw component.
pub open spec fn is_raw_cut(be: BackEdge, mg: ModuleGraph, raw: Seq<Seq<usize>>) -> bool {
    exists|k: int| #[trigger] raw_cut_edge(be, mg, raw, k)
}

/// `be` reports an edge inside a raw component that points upward in `gpos`.
pub open spec fn cut_upward(be: BackEdge, mg: ModuleGraph, raw: Seq<Seq<usize>>, gpos: Seq<int>) -> bool {
    exists|k: int| #[trigger] raw_cut(be, mg, raw, gpos, k)
}

/// `a` is the analysis of `mg` for `package_name` under `budget`, with `raw`
/// the components of the graph, `comps` those of the graph less the applied
/// cuts, `succ` their condensation, `unsorted` the proposals in component
/// order, `locked` listing the labels of modules in multi-module raw
/// components, and `gpos` the position of each module in its raw component's
/// order, which every cut points upward in and which every upward edge is cut.
pub open spec fn analysis_of(
    a: Analysis,
    mg: ModuleGraph,
    package_name: Seq<char>,
    budget: CutBudget,
    raw: Seq<Seq<usize>>,
    comps: Seq<Seq<usize>>,
    succ: Seq<Seq<usize>>,
    unsorted: Seq<CrateProposal>,
    locked: Seq<Seq<char>>,
    gpos: Seq<int>,
) -> bool {
    let cuts = a.back_edges@;
    let applied = cut_edges(cuts.take(a.applied_cut_count as int));
    let n = mg.nodes().len();
    &&& a.package_name@ == package_name
    &&& a.crate_prefix@ == prefix_of(package_name)
    &&& a.granularity == mg.granularity
    &&& is_scc_decomposition(n, mg.ends(), raw)
    &&& forall|i: int| 0 <= i < cuts.len() ==> is_raw_cut(#[trigger] cuts[i], mg, raw)
    &&& forall|i: int| 0 <= i < cuts.len() ==> cut_upward(#[trigger] cuts[i], mg, raw, gpos)
    &&& positions_distinct(raw, gpos)
    &&& cuts_cover_upward(mg, raw, gpos, cut_edges(cuts))
    &&& a.applied_cut_count == applied_count_spec(budget, cuts)
    &&& a.applied_refs_cut == cost_sum(cuts.take(a.applied_cut_count as int))
    &&& is_scc_decomposition(n, kept_edges(mg.ends(), mg.labels(), applied), comps)
    &&& is_condensation(mg, applied, comps, succ)
    &&& points_down(succ)
    &&& unsorted.len() == comps.len()
    &&& forall|i: int| 0 <= i < unsorted.len() ==> proposal_of(#[trigger] unsorted[i], mg, a.crate_prefix@, comps, succ, i)
    &&& a.proposals@ == stable_sorted(unsorted)
    &&& groups_layers(a.layers@, unsorted)
    &&& forall|l: Seq<char>| locked.contains(l) <==> in_multi(raw, mg.labels(), l)
    &&& views(a.freed_modules@) == dedup_seq(sorted_seqs(single_labels(comps, mg.labels(), listed_not(locked, Seq::empty()))))
    &&& a.frontier@.len() == cuts.len() + 1
    &&& forall|k: int| 0 <= k < a.frontier@.len() ==> crate::frontier::row_ok(#[trigger] a.frontier@[k], mg, cuts, locked, a.frontier@.take(k), k)
    &&& a.summary.module_count == n
    &&& a.summary.proposed_crate_count == a.proposals@.len()
    &&& a.summary.largest_crate_loc == max_loc(a.proposals@)
    &&& a.summary.cycle_count == cycle_total(a.proposals@)
    &&& a.summary.recommended_cut_count == cuts.len()
}

/// Whether the numbers in `w` sum to at most `cap`.
fn sum_within(w: &Vec<usize>, cap: u64) -> (r: bool)
    ensures
        r == (seq_sum(w@.map_values(|x: usize| x as nat)) <= cap),
{
    let ghost ws = w@.map_values(|x: usize| x as nat);
    let mut acc: u64 = 0;
    let mut over = false;
    let mut k: usize = 0;
    while k < w.len()
        invariant
            ws == w@.map_values(|x: usize| x as nat),
            k <= w@.len(),
            !over ==> acc == seq_sum(ws.take(k as int)) && acc <= cap,
            over ==> seq_sum(ws.take(k as int)) > cap,
        decreases w@.len() - k,
    {
        proof {
            assert(ws.take(k + 1).drop_last() =~= ws.take(k as int));
            assert(ws.take(k + 1).last() == w@[k as int] as nat);
        }
        let x = w[k] as u64;
        if !over {
            if x > cap - acc {
                over = true;
            } else {
                acc = acc + x;
            }
        }
        k = k + 1;
    }
    proof {
        assert(ws.take(w@.len() as int) =~= ws);
    }
    !over
}

/// Whether the occurrence and LOC totals of `mg` fit the machine's integers,
/// which `analyze` needs of its graph.
pub fn totals_within_limits(mg: &ModuleGraph) -> (r: bool)
    ensures
        r == totals_fit(*mg),
{
    let n = graph_node_count(&mg.graph);
    let e = graph_edge_count(&mg.graph);
    let mut sizes: Vec<usize> = Vec::new();
    let mut k: usize = 0;
    while k < e
        invariant
            e == graph_edges(mg.graph).len(),
            k <= e,
            sizes@.len() == k,
            forall|j: int| 0 <= j < k ==> #[trigger] sizes@[j] as nat == edge_sizes(mg.graph)[j],
        decreases e - k,
    {
        sizes.push(graph_edge_weight(&mg.graph, k).len());
        k = k + 1;
    }
    let mut locs: Vec<usize> = Vec::new();
    let mut files: Vec<usize> = Vec::new();
    let mut i: usize = 0;
    while i < n
        invariant
            n == mg.nodes().len(),
            i <= n,
            locs@.len() == i,
            files@.len() == i,
            forall|j: int| 0 <= j < i ==> #[trigger] locs@[j] as nat == node_locs(*mg)[j],
            forall|j: int| 0 <= j < i ==> #[trigger] files@[j] as nat == node_files(*mg)[j],
        decreases n - i,
    {
        let node = graph_node(&mg.graph, i);
        locs.push(node.loc);
        files.push(node.file_count);
        i = i + 1;
    }
    proof {
        assert(sizes@.map_values(|x: usize| x as nat) =~= edge_sizes(mg.graph));
        assert(locs@.map_values(|x: usize| x as nat) =~= node_locs(*mg));
        assert(files@.map_values(|x: usize| x as nat) =~= node_files(*mg));
    }
    let usize_cap = usize::MAX as u64;
    let occ_cap: u64 = if usize_cap < 0x7fff_ffff_ffff_ffffu64 { usize_cap } else { 0x7fff_ffff_ffff_ffffu64 };
    let occ_ok = sum_within(&sizes, occ_cap);
    let loc_ok = sum_within(&locs, usize_cap);
    let files_ok = sum_within(&files, usize_cap);
    occ_ok && loc_ok && files_ok
}

/// The occurrence and LOC totals fit the machine's integers.
pub open spec fn totals_fit(mg: ModuleGraph) -> bool {
    &&& occurrence_total(mg) <= i64::MAX
    &&& occurrence_total(mg) <= usize::MAX
    &&& seq_sum(node_locs(mg)) <= usize::MAX
    &&& seq_sum(node_files(mg)) <= usize::MAX
}

proof fn lemma_pairs_listed(applied: Seq<LabelEdge>, bes: Seq<BackEdge>, s: Seq<char>, t: Seq<char>)
    requires
        pairs_of(applied, bes),
    ensures
        cut_listed(applied, s, t) == cut_listed(cut_edges(bes), s, t),
{
    let ce = cut_edges(bes);
    if cut_listed(applied, s, t) {
        let i = choose|i: int| 0 <= i < applied.len() && (#[trigger] applied[i]).source@ == s && applied[i].target@ == t;
        assert(ce[i].source@ == s && ce[i].target@ == t);
    }
    if cut_listed(ce, s, t) {
        let i = choose|i: int| 0 <= i < ce.len() && (#[trigger] ce[i]).source@ == s && ce[i].target@ == t;
        assert(applied[i].source@ == s && applied[i].target@ == t);
    }
}

/// Run the full analysis, applying `budget` to choose how many of the
/// recommended cuts form the proposed decomposition.
///
/// The recommended cut set comes from the raw graph's SCCs: the light
/// minority-direction back-edges within each multi-module SCC, ranked
/// cheapest first. The proposed crates are the SCCs of the graph with the
/// applied cuts removed. With every cut applied no cycle is left: each
/// module is a crate of its own.
#[verifier::spinoff_prover]
#[verifier::rlimit(60)]
pub fn analyze_with_budget(
    mg: &ModuleGraph,
    package_name: &str,
    respect_order: Option<&[String]>,
    budget: CutBudget,
) -> (r: Analysis)
    requires
        totals_fit(*mg),
    ensures
        exists|raw: Seq<Seq<usize>>, comps: Seq<Seq<usize>>, succ: Seq<Seq<usize>>, unsorted: Seq<CrateProposal>, locked: Seq<Seq<char>>, gpos: Seq<int>|
            #[trigger] analysis_of(r, *mg, package_name@, budget, raw, comps, succ, unsorted, locked, gpos)
            && (respect_order matches Some(spec) ==> pins_respected(*mg, raw, gpos, views(spec@)))
            && ordered_by(*mg, raw, gpos, pin_of(respect_order)),
        exists|src: Seq<int>| #[trigger] cut_sources(r.back_edges@, *mg, src) && tie_order(r.back_edges@, src),
        r.applied_cut_count <= r.back_edges@.len(),
        budget matches CutBudget::Refs(m) ==> r.applied_refs_cut <= m,
        is_key_sorted(r.back_edges@),
        is_key_sorted(r.proposals@),
        budget == CutBudget::All ==> r.summary.cycle_count == 0 && r.summary.proposed_crate_count == r.summary.module_count,
{
    let labels = mg.node_labels();
    let prefix = crate_prefix(package_name);
    let n = graph_node_count(&mg.graph);
    let e = graph_edge_count(&mg.graph);
    let none: Vec<LabelEdge> = Vec::new();
    let raw = mg.sccs_without(none.as_slice());
    let ghost rv = comp_views(raw@);
    proof {
        lemma_kept_none(mg.ends(), mg.labels(), none@);
        assert(edges_valid(*mg));
        assert(mg.labels().len() == mg.nodes().len());
        assert(views(labels@).len() == labels@.len());
    }
    let (collected, gpos, src) = collect_cuts(mg, &labels, &raw, respect_order);
    let (back_edges, src2, perm) = sort_cuts(collected, src);
    let ghost sizes = edge_sizes(mg.graph);
    proof {
        assert forall|i: int, j: int| 0 <= i < j < back_edges@.len() && !(#[trigger] back_edges@[j]).key_lt(#[trigger] back_edges@[i]) && !back_edges@[i].key_lt(back_edges@[j])
            implies back_edges@[i].scc < back_edges@[j].scc || (back_edges@[i].scc == back_edges@[j].scc && src2@[i] < src2@[j]) by {
            assert(perm@[i] != perm@[j]);
            assert(back_edges@[i] == collected@[perm@[i]]);
            assert(back_edges@[j] == collected@[perm@[j]]);
            assert(src2@[i] == src@[perm@[i]]);
            assert(src2@[j] == src@[perm@[j]]);
            if perm@[j] < perm@[i] {
                assert(back_edges@[i].key_lt(back_edges@[j]));
            }
        }
        assert(tie_order(back_edges@, src2@));
        assert forall|i: int| 0 <= i < back_edges@.len() implies raw_cut(#[trigger] back_edges@[i], *mg, rv, gpos@, src2@[i]) by {
            assert(back_edges@[i] == collected@[perm@[i]]);
            assert(src2@[i] == src@[perm@[i]]);
        }
        assert forall|i: int| 0 <= i < back_edges@.len() implies 0 <= #[trigger] src2@[i] < sizes.len() && back_edges@[i].occurrence_count == sizes[src2@[i]] by {
            assert(raw_cut(back_edges@[i], *mg, rv, gpos@, src2@[i]));
        }
        lemma_cost_sum_picked(back_edges@, sizes, src2@);
        lemma_picked_sum_bound(sizes, src2@);
    }
    proof {
        assert forall|c: int, x: int| 0 <= c < raw@.len() && 0 <= x < raw@[c]@.len() implies (#[trigger] raw@[c]@[x]) < labels@.len() by {
            assert(rv[c][x] == raw@[c]@[x]);
        }
    }
    let locked = multi_labels(&labels, &raw);
    let applied_cut_count = applied_count(&back_edges, budget);
    let applied_refs_cut = cost_prefix(&back_edges, applied_cut_count);
    let applied = cut_pairs(&back_edges, applied_cut_count);
    let sccs = mg.sccs_without(applied.as_slice());
    let ghost cv = comp_views(sccs@);
    let ghost taken = back_edges@.take(applied_cut_count as int);
    proof {
        lemma_pairs_kept(mg.ends(), mg.labels(), applied@, taken);
    }
    let (unsorted, layers, succ) = build_proposals(mg, &labels, prefix.as_str(), &sccs, applied.as_slice());
    proof {
        assert forall|k: int| 0 <= k < mg.ends().len() implies kept(*mg, applied@, k) == kept(*mg, cut_edges(taken), k) by {
            lemma_pairs_listed(applied@, taken, mg.labels()[mg.ends()[k].0 as int], mg.labels()[mg.ends()[k].1 as int]);
        }
        assert forall|i: int, t: usize| 0 <= i < succ@.len() implies (#[trigger] succ@[i].contains(t) <==> cond_edge(*mg, cut_edges(taken), cv, i, t as int)) by {
            assert(succ@[i].contains(t) <==> cond_edge(*mg, applied@, cv, i, t as int));
            if cond_edge(*mg, applied@, cv, i, t as int) {
                let k = choose|k: int| 0 <= k < mg.ends().len() && kept(*mg, applied@, k)
                    && #[trigger] in_comp(cv, i, mg.ends()[k].0 as int) && #[trigger] in_comp(cv, t as int, mg.ends()[k].1 as int);
                assert(kept(*mg, cut_edges(taken), k));
            }
            if cond_edge(*mg, cut_edges(taken), cv, i, t as int) {
                let k = choose|k: int| 0 <= k < mg.ends().len() && kept(*mg, cut_edges(taken), k)
                    && #[trigger] in_comp(cv, i, mg.ends()[k].0 as int) && #[trigger] in_comp(cv, t as int, mg.ends()[k].1 as int);
                assert(kept(*mg, applied@, k));
            }
        }
        assert forall|c: int, x: int| 0 <= c < sccs@.len() && 0 <= x < sccs@[c]@.len() implies (#[trigger] sccs@[c]@[x]) < labels@.len() by {
            assert(cv[c][x] == sccs@[c]@[x]);
        }
    }
    let none_s: Vec<String> = Vec::new();
    let freed_modules = standalone_among(&labels, &sccs, &locked, &none_s);
    let frontier = compute_frontier(mg, prefix.as_str(), &back_edges, &locked);
    let ghost unsorted_v = unsorted@;
    let proposals = stable_sort(unsorted);
    let largest_crate_loc = largest_proposal_loc(&proposals);
    let cycle_count = count_cycles(&proposals);
    let module_count = n;
    let proposed_crate_count = proposals.len();
    let recommended_cut_count = back_edges.len();
    let a = Analysis {
        package_name: package_name.to_owned(),
        crate_prefix: prefix,
        granularity: mg.granularity,
        proposals,
        layers,
        back_edges,
        applied_cut_count,
        applied_refs_cut,
        freed_modules,
        frontier,
        summary: Summary { module_count, proposed_crate_count, largest_crate_loc, cycle_count, recommended_cut_count },
    };
    proof {
        assert(views(none_s@) =~= Seq::<Seq<char>>::empty());
        assert forall|i: int| 0 <= i < a.back_edges@.len() implies is_raw_cut(#[trigger] a.back_edges@[i], *mg, rv) by {
            assert(raw_cut(a.back_edges@[i], *mg, rv, gpos@, src2@[i]));
            assert(raw_cut_edge(a.back_edges@[i], *mg, rv, src2@[i]));
        }
        assert forall|k: int, c: int| 0 <= k < mg.ends().len() && mg.ends()[k].0 != mg.ends()[k].1
            && #[trigger] in_comp(rv, c, mg.ends()[k].0 as int) && in_comp(rv, c, mg.ends()[k].1 as int)
            && upward(gpos@, #[trigger] mg.ends()[k])
            implies cut_listed(cut_edges(a.back_edges@), mg.labels()[mg.ends()[k].0 as int], mg.labels()[mg.ends()[k].1 as int]) by {
            assert(src@.contains(k));
            let j = choose|j: int| 0 <= j < src@.len() && src@[j] == k;
            assert(src2@.contains(src@[j]));
            let i = choose|i: int| 0 <= i < src2@.len() && src2@[i] == k;
            assert(raw_cut(a.back_edges@[i], *mg, rv, gpos@, src2@[i]));
            assert(cut_edges(a.back_edges@)[i].source@ == mg.labels()[mg.ends()[k].0 as int]);
            assert(cut_edges(a.back_edges@)[i].target@ == mg.labels()[mg.ends()[k].1 as int]);
        }
        assert(cuts_cover_upward(*mg, rv, gpos@, cut_edges(a.back_edges@)));
        lemma_cut_order(collected@);
        lemma_stable_sorted_sorted(collected@);
        lemma_proposal_order(unsorted_v);
        lemma_stable_sorted_sorted(unsorted_v);
        assert forall|i: int| 0 <= i < a.back_edges@.len() implies cut_upward(#[trigger] a.back_edges@[i], *mg, rv, gpos@) by {
            assert(raw_cut(a.back_edges@[i], *mg, rv, gpos@, src2@[i]));
        }
        assert(analysis_of(a, *mg, package_name@, budget, rv, cv, succ@, unsorted_v, views(locked@), gpos@));
        assert forall|i: int| 0 <= i < a.back_edges@.len() implies 0 <= #[trigger] src2@[i] < mg.ends().len()
            && reports_edge(a.back_edges@[i], *mg, src2@[i], a.back_edges@[i].scc) by {
            assert(raw_cut(a.back_edges@[i], *mg, rv, gpos@, src2@[i]));
        }
        assert(cut_sources(a.back_edges@, *mg, src2@));
        assert(tie_order(a.back_edges@, src2@));
        assert(respect_order matches Some(spec) ==> pins_respected(*mg, rv, gpos@, views(spec@)));
        assert(ordered_by(*mg, rv, gpos@, pin_of(respect_order)));
        match budget {
            CutBudget::Refs(m) => {
                lemma_taken_within_cost(a.back_edges@, m as nat);
            },
            _ => {},
        }
        if budget == CutBudget::All {
            lemma_full_budget_no_cycles(a, *mg, package_name@, rv, cv, succ@, unsorted_v, views(locked@), gpos@);
        }
    }
    a
}

/// Run SCC + condensation + layering + back-edge analysis with every
/// recommended cut applied.
///
/// `respect_order`, when `Some`, is a user-supplied module order (foundation
/// first) used to detect back-edges instead of the computed ordering: any
/// intra-SCC edge that points "upward" relative to this order is reported as
/// a violation. Modules not named keep their computed position (placed after
/// the named ones).
pub fn analyze(mg: &ModuleGraph, package_name: &str, respect_order: Option<&[String]>) -> (r: Analysis)
    requires
        totals_fit(*mg),
    ensures
        exists|raw: Seq<Seq<usize>>, comps: Seq<Seq<usize>>, succ: Seq<Seq<usize>>, unsorted: Seq<CrateProposal>, locked: Seq<Seq<char>>, gpos: Seq<int>|
            #[trigger] analysis_of(r, *mg, package_name@, CutBudget::All, raw, comps, succ, unsorted, locked, gpos)
            && (respect_order matches Some(spec) ==> pins_respected(*mg, raw, gpos, views(spec@)))
            && ordered_by(*mg, raw, gpos, pin_of(respect_order)),
        exists|src: Seq<int>| #[trigger] cut_sources(r.back_edges@, *mg, src) && tie_order(r.back_edges@, src),
        r.applied_cut_count == r.back_edges@.len(),
        r.summary.cycle_count == 0,
        r.summary.proposed_crate_count == r.summary.module_count,
{
    let r = analyze_with_budget(mg, package_name, respect_order, CutBudget::All);
    proof {
        let (raw, comps, succ, unsorted, locked, gpos) = choose|raw: Seq<Seq<usize>>, comps: Seq<Seq<usize>>, succ: Seq<Seq<usize>>, unsorted: Seq<CrateProposal>, locked: Seq<Seq<char>>, gpos: Seq<int>|
            #[trigger] analysis_of(r, *mg, package_name@, CutBudget::All, raw, comps, succ, unsorted, locked, gpos)
            && (respect_order matches Some(spec) ==> pins_respected(*mg, raw, gpos, views(spec@)))
            && ordered_by(*mg, raw, gpos, pin_of(respect_order));
    }
    r
}

/// Law: the proposed crates form a DAG, layered from the foundation up.
/// Every crate a proposal depends on comes from an earlier component and sits
/// on a strictly lower layer; layer 0 holds exactly the crates without
/// dependencies.
pub proof fn lemma_layers_respect_dependencies(
    a: Analysis,
    mg: ModuleGraph,
    package_name: Seq<char>,
    budget: CutBudget,
    raw: Seq<Seq<usize>>,
    comps: Seq<Seq<usize>>,
    succ: Seq<Seq<usize>>,
    unsorted: Seq<CrateProposal>,
    locked: Seq<Seq<char>>,
    gpos: Seq<int>,
)
    requires
        analysis_of(a, mg, package_name, budget, raw, comps, succ, unsorted, locked, gpos),
    ensures
        forall|i: int, t: usize| 0 <= i < unsorted.len() && #[trigger] succ[i].contains(t)
            ==> t < i && unsorted[t as int].layer < unsorted[i].layer,
        forall|i: int| 0 <= i < unsorted.len() ==> ((#[trigger] unsorted[i]).layer == 0 <==> succ[i].len() == 0),
{
    assert forall|i: int, t: usize| 0 <= i < unsorted.len() && #[trigger] succ[i].contains(t)
        implies t < i && unsorted[t as int].layer < unsorted[i].layer by {
        let k = choose|k: int| 0 <= k < succ[i].len() && succ[i][k] == t;
        assert(succ[i][k] < i);
        lemma_chain_len(succ, i);
        assert(proposal_of(unsorted[i], mg, a.crate_prefix@, comps, succ, i));
        assert(proposal_of(unsorted[t as int], mg, a.crate_prefix@, comps, succ, t as int));
    }
    assert forall|i: int| 0 <= i < unsorted.len() implies ((#[trigger] unsorted[i]).layer == 0 <==> succ[i].len() == 0) by {
        lemma_chain_len(succ, i);
        assert(proposal_of(unsorted[i], mg, a.crate_prefix@, comps, succ, i));
    }
}

/// A cut edge between two modules that reach each other in the raw graph.
pub open spec fn cut_on_cycle(be: BackEdge, mg: ModuleGraph, k: int) -> bool {
    &&& 0 <= k < mg.ends().len()
    &&& reports_edge(be, mg, k, be.scc)
    &&& mg.ends()[k].0 != mg.ends()[k].1
    &&& mutual(mg.ends(), mg.ends()[k].0 as int, mg.ends()[k].1 as int)
}

/// `be` cuts an edge that lies on a cycle of the raw graph.
pub open spec fn cuts_a_cycle(be: BackEdge, mg: ModuleGraph) -> bool {
    exists|k: int| #[trigger] cut_on_cycle(be, mg, k)
}

/// Law: every recommended cut removes an edge that lies on a cycle of two or
/// more modules in the raw graph; no edge outside a cycle is ever cut.
pub proof fn lemma_cuts_lie_on_cycles(
    a: Analysis,
    mg: ModuleGraph,
    package_name: Seq<char>,
    budget: CutBudget,
    raw: Seq<Seq<usize>>,
    comps: Seq<Seq<usize>>,
    succ: Seq<Seq<usize>>,
    unsorted: Seq<CrateProposal>,
    locked: Seq<Seq<char>>,
    gpos: Seq<int>,
)
    requires
        analysis_of(a, mg, package_name, budget, raw, comps, succ, unsorted, locked, gpos),
    ensures
        forall|i: int| 0 <= i < a.back_edges@.len() ==> cuts_a_cycle(#[trigger] a.back_edges@[i], mg),
{
    assert forall|i: int| 0 <= i < a.back_edges@.len() implies cuts_a_cycle(#[trigger] a.back_edges@[i], mg) by {
        let be = a.back_edges@[i];
        assert(is_raw_cut(be, mg, raw));
        let k = choose|k: int| #[trigger] raw_cut_edge(be, mg, raw, k);
        assert(cut_on_cycle(be, mg, k));
    }
}

/// Law: no recommended cut means the raw graph has no cycle through two or
/// more modules, so each module is already a crate of its own.
pub proof fn lemma_no_cuts_means_acyclic(
    a: Analysis,
    mg: ModuleGraph,
    package_name: Seq<char>,
    budget: CutBudget,
    raw: Seq<Seq<usize>>,
    comps: Seq<Seq<usize>>,
    succ: Seq<Seq<usize>>,
    unsorted: Seq<CrateProposal>,
    locked: Seq<Seq<char>>,
    gpos: Seq<int>,
)
    requires
        edges_valid(mg),
        analysis_of(a, mg, package_name, budget, raw, comps, succ, unsorted, locked, gpos),
        a.back_edges@.len() == 0,
    ensures
        forall|c: int| 0 <= c < raw.len() ==> (#[trigger] raw[c]).len() == 1,
        a.summary.cycle_count == 0,
        a.summary.proposed_crate_count == a.summary.module_count,
{
    let none = cut_edges(a.back_edges@);
    assert(none.len() == 0);
    lemma_kept_none(mg.ends(), mg.labels(), none);
    lemma_cuts_break_cycles(mg, raw, gpos, none, raw);
    assert(a.back_edges@.take(a.applied_cut_count as int) =~= a.back_edges@);
    lemma_cuts_break_cycles(mg, raw, gpos, none, comps);
    lemma_singletons_count(mg.nodes().len(), kept_edges(mg.ends(), mg.labels(), none), comps);
    let sp = lemma_stable_sorted_perm(unsorted);
    assert forall|i: int| 0 <= i < a.proposals@.len() implies !(#[trigger] a.proposals@[i]).is_cycle by {
        assert(a.proposals@[i] == unsorted[sp[i]]);
        assert(proposal_of(unsorted[sp[i]], mg, a.crate_prefix@, comps, succ, sp[i]));
    }
    lemma_cycle_total_zero(a.proposals@);
}

/// Law: the frontier's last row, with every recommended cut applied, has one
/// crate per module.
pub proof fn lemma_frontier_ends_fully_split(
    a: Analysis,
    mg: ModuleGraph,
    package_name: Seq<char>,
    budget: CutBudget,
    raw: Seq<Seq<usize>>,
    comps: Seq<Seq<usize>>,
    succ: Seq<Seq<usize>>,
    unsorted: Seq<CrateProposal>,
    locked: Seq<Seq<char>>,
    gpos: Seq<int>,
)
    requires
        edges_valid(mg),
        analysis_of(a, mg, package_name, budget, raw, comps, succ, unsorted, locked, gpos),
    ensures
        a.frontier@.last().cuts_applied == a.back_edges@.len(),
        a.frontier@.last().crate_count == a.summary.module_count,
{
    let k = a.back_edges@.len() as int;
    let row = a.frontier@[k];
    assert(crate::frontier::row_ok(row, mg, a.back_edges@, locked, a.frontier@.take(k), k));
    let fc = choose|fc: Seq<Seq<usize>>| #[trigger] crate::frontier::row_of(row, mg, a.back_edges@, locked, a.frontier@.take(k), k, fc);
    assert(a.back_edges@.take(k) =~= a.back_edges@);
    lemma_cuts_break_cycles(mg, raw, gpos, cut_edges(a.back_edges@), fc);
    lemma_singletons_count(mg.nodes().len(), kept_edges(mg.ends(), mg.labels(), cut_edges(a.back_edges@)), fc);
}

/// Law: with every recommended cut applied no cycle remains, and each module
/// is a crate of its own.
pub proof fn lemma_full_budget_no_cycles(
    a: Analysis,
    mg: ModuleGraph,
    package_name: Seq<char>,
    raw: Seq<Seq<usize>>,
    comps: Seq<Seq<usize>>,
    succ: Seq<Seq<usize>>,
    unsorted: Seq<CrateProposal>,
    locked: Seq<Seq<char>>,
    gpos: Seq<int>,
)
    requires
        edges_valid(mg),
        analysis_of(a, mg, package_name, CutBudget::All, raw, comps, succ, unsorted, locked, gpos),
    ensures
        a.summary.cycle_count == 0,
        a.summary.proposed_crate_count == a.summary.module_count,
{
    let taken = a.back_edges@.take(a.applied_cut_count as int);
    assert(taken =~= a.back_edges@);
    lemma_cuts_break_cycles(mg, raw, gpos, cut_edges(taken), comps);
    lemma_singletons_count(mg.nodes().len(), kept_edges(mg.ends(), mg.labels(), cut_edges(taken)), comps);
    let sp = lemma_stable_sorted_perm(unsorted);
    assert forall|i: int| 0 <= i < a.proposals@.len() implies !(#[trigger] a.proposals@[i]).is_cycle by {
        assert(a.proposals@[i] == unsorted[sp[i]]);
        assert(proposal_of(unsorted[sp[i]], mg, a.crate_prefix@, comps, succ, sp[i]));
    }
    lemma_cycle_total_zero(a.proposals@);
}

/// Law: under a pinned order, every dependency inside a cycle that points
/// upward in that order (from a module to one named later, or from a named
/// module to one not named at all) is among the recommended cuts.
pub proof fn lemma_pinned_violations_cut(
    a: Analysis,
    mg: ModuleGraph,
    package_name: Seq<char>,
    budget: CutBudget,
    raw: Seq<Seq<usize>>,
    comps: Seq<Seq<usize>>,
    succ: Seq<Seq<usize>>,
    unsorted: Seq<CrateProposal>,
    locked: Seq<Seq<char>>,
    gpos: Seq<int>,
    spec: Seq<Seq<char>>,
)
    requires
        analysis_of(a, mg, package_name, budget, raw, comps, succ, unsorted, locked, gpos),
        pins_respected(mg, raw, gpos, spec),
    ensures
        forall|k: int, c: int| 0 <= k < mg.ends().len() && mg.ends()[k].0 != mg.ends()[k].1
            && #[trigger] in_comp(raw, c, mg.ends()[k].0 as int) && in_comp(raw, c, mg.ends()[k].1 as int)
            && labels_distinct_in(mg.labels(), raw[c])
            && pin_rank(spec, mg.labels()[mg.ends()[k].0 as int]) < pin_rank(spec, mg.labels()[#[trigger] mg.ends()[k].1 as int])
            ==> cut_listed(cut_edges(a.back_edges@), mg.labels()[mg.ends()[k].0 as int], mg.labels()[mg.ends()[k].1 as int]),
{
    assert forall|k: int, c: int| 0 <= k < mg.ends().len() && mg.ends()[k].0 != mg.ends()[k].1
        && #[trigger] in_comp(raw, c, mg.ends()[k].0 as int) && in_comp(raw, c, mg.ends()[k].1 as int)
        && labels_distinct_in(mg.labels(), raw[c])
        && pin_rank(spec, mg.labels()[mg.ends()[k].0 as int]) < pin_rank(spec, mg.labels()[#[trigger] mg.ends()[k].1 as int])
        implies cut_listed(cut_edges(a.back_edges@), mg.labels()[mg.ends()[k].0 as int], mg.labels()[mg.ends()[k].1 as int]) by {
        let e = mg.ends()[k];
        assert(gpos[e.0 as int] < gpos[e.1 as int]);
        assert(upward(gpos, mg.ends()[k]));
    }
}

/// Law: under a pinned order, no recommended cut points from a module to one
/// named earlier in that order: every cut reports a dependency that violates
/// the pinned layering, or one between two modules it does not name.
pub proof fn lemma_pinned_cuts_are_violations(
    a: Analysis,
    mg: ModuleGraph,
    package_name: Seq<char>,
    budget: CutBudget,
    raw: Seq<Seq<usize>>,
    comps: Seq<Seq<usize>>,
    succ: Seq<Seq<usize>>,
    unsorted: Seq<CrateProposal>,
    locked: Seq<Seq<char>>,
    gpos: Seq<int>,
    spec: Seq<Seq<char>>,
)
    requires
        analysis_of(a, mg, package_name, budget, raw, comps, succ, unsorted, locked, gpos),
        pins_respected(mg, raw, gpos, spec),
    ensures
        forall|i: int| 0 <= i < a.back_edges@.len() && labels_distinct_in(mg.labels(), raw[(#[trigger] a.back_edges@[i]).scc as int])
            ==> pin_rank(spec, a.back_edges@[i].source_module@) <= pin_rank(spec, a.back_edges@[i].target_module@),
{
    assert forall|i: int| 0 <= i < a.back_edges@.len() && labels_distinct_in(mg.labels(), raw[(#[trigger] a.back_edges@[i]).scc as int])
        implies pin_rank(spec, a.back_edges@[i].source_module@) <= pin_rank(spec, a.back_edges@[i].target_module@) by {
        let be = a.back_edges@[i];
        assert(cut_upward(be, mg, raw, gpos));
        let k = choose|k: int| #[trigger] raw_cut(be, mg, raw, gpos, k);
        let e = mg.ends()[k];
        let c = be.scc as int;
        assert(in_comp(raw, c, e.0 as int));
        assert(in_comp(raw, c, e.1 as int));
        assert(be.source_module@ == mg.labels()[e.0 as int]);
        assert(be.target_module@ == mg.labels()[e.1 as int]);
    }
}

/// Law: the cuts inside a component are the dependencies that point backward
/// in its order: the Eades–Lin–Smyth order of its edges (reversed, foundation
/// first), or under a pinned order the named members first and then the others
/// in that order. `sc` lists the component's members by label and the order
/// runs over their indices in `sc`: every dependency from a member to one
/// placed later in the order is cut, and every cut of the component reports
/// such a dependency.
pub proof fn lemma_cuts_are_order_back_edges(
    a: Analysis,
    mg: ModuleGraph,
    package_name: Seq<char>,
    budget: CutBudget,
    raw: Seq<Seq<usize>>,
    comps: Seq<Seq<usize>>,
    succ: Seq<Seq<usize>>,
    unsorted: Seq<CrateProposal>,
    locked: Seq<Seq<char>>,
    gpos: Seq<int>,
    c: int,
    sc: Seq<usize>,
    pin: Option<Seq<Seq<char>>>,
)
    requires
        analysis_of(a, mg, package_name, budget, raw, comps, succ, unsorted, locked, gpos),
        0 <= c < raw.len(),
        label_sorted_members(mg.labels(), raw[c], sc),
        is_order(comp_order(mg, sc, pin), sc.len()),
        follows_order(gpos, sc, comp_order(mg, sc, pin)),
    ensures
        forall|k: int| #[trigger] backward_in(mg, sc, comp_order(mg, sc, pin), k)
            ==> cut_listed(cut_edges(a.back_edges@), mg.labels()[mg.ends()[k].0 as int], mg.labels()[mg.ends()[k].1 as int]),
        forall|i: int| 0 <= i < a.back_edges@.len() && (#[trigger] a.back_edges@[i]).scc == c
            ==> reports_backward(a.back_edges@[i], mg, sc, comp_order(mg, sc, pin)),
{
    let ord = comp_order(mg, sc, pin);
    // The position of each member is its rank in the order.
    assert forall|v: usize| sc.contains(v) implies #[trigger] gpos[v as int] == rank_in(ord, pos_in(sc, v) as usize) by {
        let j = pos_in(sc, v);
        assert(0 <= j < sc.len() && sc[j] == v);
        assert(0 <= gpos[sc[j] as int] < ord.len() && ord[gpos[sc[j] as int]] == j);
        assert(ord.contains(j as usize));
        let r = rank_in(ord, j as usize);
        assert(0 <= r < ord.len() && ord[r] == j as usize);
        assert(gpos[v as int] == r);
    }
    assert forall|k: int| #[trigger] backward_in(mg, sc, ord, k)
        implies cut_listed(cut_edges(a.back_edges@), mg.labels()[mg.ends()[k].0 as int], mg.labels()[mg.ends()[k].1 as int]) by {
        let e = mg.ends()[k];
        assert(raw[c].contains(e.0) && raw[c].contains(e.1));
        assert(in_comp(raw, c, e.0 as int));
        assert(in_comp(raw, c, e.1 as int));
        assert(gpos[e.0 as int] == rank_in(ord, pos_in(sc, e.0) as usize));
        assert(gpos[e.1 as int] == rank_in(ord, pos_in(sc, e.1) as usize));
        assert(upward(gpos, mg.ends()[k]));
    }
    assert forall|i: int| 0 <= i < a.back_edges@.len() && (#[trigger] a.back_edges@[i]).scc == c
        implies reports_backward(a.back_edges@[i], mg, sc, ord) by {
        let be = a.back_edges@[i];
        assert(cut_upward(be, mg, raw, gpos));
        let k = choose|k: int| #[trigger] raw_cut(be, mg, raw, gpos, k);
        let e = mg.ends()[k];
        assert(raw[c].contains(e.0) && raw[c].contains(e.1));
        assert(sc.contains(e.0) && sc.contains(e.1));
        assert(gpos[e.0 as int] == rank_in(ord, pos_in(sc, e.0) as usize));
        assert(gpos[e.1 as int] == rank_in(ord, pos_in(sc, e.1) as usize));
        assert(backward_in(mg, sc, ord, k));
    }
}

/// The LOC of the largest proposal: at least every proposal's LOC and equal
/// to one of them (0 when there are none).
pub proof fn lemma_max_loc(props: Seq<CrateProposal>)
    ensures
        forall|i: int| 0 <= i < props.len() ==> (#[trigger] props[i]).loc <= max_loc(props),
        props.len() == 0 ==> max_loc(props) == 0,
        props.len() > 0 ==> exists|i: int| 0 <= i < props.len() && (#[trigger] props[i]).loc == max_loc(props),
    decreases props.len(),
{
    if props.len() > 0 {
        let d = props.drop_last();
        lemma_max_loc(d);
        assert forall|i: int| 0 <= i < props.len() implies (#[trigger] props[i]).loc <= max_loc(props) by {
            if i < d.len() {
                assert(props[i] == d[i]);
            }
        }
        if props.last().loc <= max_loc(d) && d.len() > 0 {
            let i = choose|i: int| 0 <= i < d.len() && (#[trigger] d[i]).loc == max_loc(d);
            assert(props[i] == d[i]);
        } else {
            assert(props[props.len() - 1].loc == max_loc(props));
        }
    }
}

/// Law: the summary's largest crate LOC is the LOC of the largest proposed
/// crate: no proposal has more lines, one has exactly that many, and it is 0
/// when nothing is proposed.
pub proof fn lemma_largest_crate_loc(
    a: Analysis,
    mg: ModuleGraph,
    package_name: Seq<char>,
    budget: CutBudget,
    raw: Seq<Seq<usize>>,
    comps: Seq<Seq<usize>>,
    succ: Seq<Seq<usize>>,
    unsorted: Seq<CrateProposal>,
    locked: Seq<Seq<char>>,
    gpos: Seq<int>,
)
    requires
        analysis_of(a, mg, package_name, budget, raw, comps, succ, unsorted, locked, gpos),
    ensures
        forall|i: int| 0 <= i < a.proposals@.len() ==> (#[trigger] a.proposals@[i]).loc <= a.summary.largest_crate_loc,
        a.proposals@.len() == 0 ==> a.summary.largest_crate_loc == 0,
        a.proposals@.len() > 0 ==> exists|i: int| 0 <= i < a.proposals@.len()
            && (#[trigger] a.proposals@[i]).loc == a.summary.largest_crate_loc,
{
    lemma_max_loc(a.proposals@);
}

/// The LOC of the largest component: at least every component's LOC sum
/// and equal to one of them (0 when there are none).
pub proof fn lemma_largest_comp_loc(locs: Seq<nat>, comps: Seq<Seq<usize>>)
    ensures
        forall|c: int| 0 <= c < comps.len() ==> picked_sum(locs, as_ints(#[trigger] comps[c])) <= largest_comp_loc(locs, comps),
        comps.len() == 0 ==> largest_comp_loc(locs, comps) == 0,
        comps.len() > 0 ==> exists|c: int| 0 <= c < comps.len()
            && picked_sum(locs, as_ints(#[trigger] comps[c])) == largest_comp_loc(locs, comps),
    decreases comps.len(),
{
    if comps.len() > 0 {
        let d = comps.drop_last();
        lemma_largest_comp_loc(locs, d);
        assert forall|c: int| 0 <= c < comps.len() implies picked_sum(locs, as_ints(#[trigger] comps[c])) <= largest_comp_loc(locs, comps) by {
            if c < d.len() {
                assert(comps[c] == d[c]);
            }
        }
        let x = picked_sum(locs, as_ints(comps.last()));
        if x <= largest_comp_loc(locs, d) && d.len() > 0 {
            let c = choose|c: int| 0 <= c < d.len() && picked_sum(locs, as_ints(#[trigger] d[c])) == largest_comp_loc(locs, d);
            assert(comps[c] == d[c]);
        } else {
            assert(comps[comps.len() - 1] == comps.last());
        }
    }
}

/// Law: each frontier row's largest LOC is that of the largest crate after
/// its cuts: for the components `comps` of the graph less the row's first
/// `k` cuts, no component has more lines, one has exactly that many, and it
/// is 0 when there is none.
pub proof fn lemma_frontier_largest_loc(
    a: Analysis,
    mg: ModuleGraph,
    package_name: Seq<char>,
    budget: CutBudget,
    raw: Seq<Seq<usize>>,
    comps: Seq<Seq<usize>>,
    succ: Seq<Seq<usize>>,
    unsorted: Seq<CrateProposal>,
    locked: Seq<Seq<char>>,
    gpos: Seq<int>,
    k: int,
    row_comps: Seq<Seq<usize>>,
)
    requires
        analysis_of(a, mg, package_name, budget, raw, comps, succ, unsorted, locked, gpos),
        0 <= k < a.frontier@.len(),
        crate::frontier::row_of(a.frontier@[k], mg, a.back_edges@, locked, a.frontier@.take(k), k, row_comps),
    ensures
        is_scc_decomposition(mg.nodes().len(), kept_edges(mg.ends(), mg.labels(), cut_edges(a.back_edges@.take(k))), row_comps),
        forall|c: int| 0 <= c < row_comps.len()
            ==> picked_sum(node_locs(mg), as_ints(#[trigger] row_comps[c])) <= a.frontier@[k].largest_loc,
        row_comps.len() == 0 ==> a.frontier@[k].largest_loc == 0,
        row_comps.len() > 0 ==> exists|c: int| 0 <= c < row_comps.len()
            && picked_sum(node_locs(mg), as_ints(#[trigger] row_comps[c])) == a.frontier@[k].largest_loc,
{
    lemma_largest_comp_loc(node_locs(mg), row_comps);
}

} // verus!
