//! The module dependency graph, held in a petgraph `DiGraph`.

use vstd::prelude::*;
use petgraph::graph::{DiGraph, NodeIndex};
use crate::modpath::{ModulePath, ModuleKind, DiscoveredFile, module_label, kept_segments};
use crate::parse::{Reference, RefView, views_of};
use crate::discover::Discovery;
use crate::scc::{is_scc_decomposition, comp_views, has_edge, is_path, path_step, reaches, mutual, in_comp, covered};
use crate::text::{views, string_from_chars, chars_of, split_seq, split_on, trim_start_all, chars_trim_start_all, str_eq};

verus! {

#[verifier::external_type_specification]
#[verifier::external_body]
#[verifier::reject_recursive_types(N)]
#[verifier::reject_recursive_types(E)]
#[verifier::reject_recursive_types(Ty)]
#[verifier::reject_recursive_types(Ix)]
pub struct ExPetGraph<N, E, Ty, Ix>(petgraph::graph::Graph<N, E, Ty, Ix>);

#[verifier::external_type_specification]
#[verifier::external_body]
pub struct ExPetDirected(petgraph::Directed);

/// A node in the module graph.
#[derive(Clone, Debug)]
pub struct ModuleNode {
    /// Module path truncated to the chosen granularity.
    pub module: ModulePath,
    /// Total lines of code across files mapping to this module.
    pub loc: usize,
    /// Number of files mapping to this module.
    pub file_count: usize,
    /// Whether this module is a binary root.
    pub bin: Option<String>,
}

/// Label of a node: `bin:<name>` for a binary root, else the module label.
pub open spec fn node_label(n: ModuleNode) -> Seq<char> {
    match n.bin {
        Some(name) => "bin:"@ + name@,
        None => module_label(n.module@),
    }
}

impl ModuleNode {
    pub fn label(&self) -> (r: String)
        ensures
            r@ == node_label(*self),
    {
        match &self.bin {
            Some(name) => {
                let mut s = "bin:".to_owned();
                s.append(name.as_str());
                s
            },
            None => self.module.label(),
        }
    }
}

/// A single occurrence of an edge (one `crate::...` reference).
#[derive(Clone, Debug)]
pub struct Occurrence {
    pub file: String,
    pub line: usize,
    pub path: String,
}

/// Edge weight: all occurrences that produced this `source -> target` edge.
pub type EdgeWeight = Vec<Occurrence>;

/// The nodes of a module graph, by index.
pub uninterp spec fn graph_nodes(g: DiGraph<ModuleNode, EdgeWeight>) -> Seq<ModuleNode>;

/// The edges of a module graph, by index: source, target, weight.
pub uninterp spec fn graph_edges(g: DiGraph<ModuleNode, EdgeWeight>) -> Seq<(usize, usize, EdgeWeight)>;

/// `Graph::new`: an empty graph.
#[verifier::external_body]
pub(crate) fn graph_new() -> (g: DiGraph<ModuleNode, EdgeWeight>)
    ensures
        graph_nodes(g).len() == 0,
        graph_edges(g).len() == 0,
{
    DiGraph::new()
}

/// `Graph::add_node`: appends a node and returns its index. The default
/// `u32` index type holds at most `u32::MAX` nodes (add_node panics beyond).
#[verifier::external_body]
pub(crate) fn graph_add_node(g: &mut DiGraph<ModuleNode, EdgeWeight>, w: ModuleNode) -> (r: usize)
    requires
        graph_nodes(*old(g)).len() < u32::MAX,
    ensures
        graph_nodes(*final(g)) == graph_nodes(*old(g)).push(w),
        graph_edges(*final(g)) == graph_edges(*old(g)),
        r == graph_nodes(*old(g)).len(),
{
    g.add_node(w).index()
}

/// `Graph::add_edge`: appends an edge between existing nodes (it panics on
/// a missing node, or beyond `u32::MAX` edges).
#[verifier::external_body]
pub(crate) fn graph_add_edge(g: &mut DiGraph<ModuleNode, EdgeWeight>, a: usize, b: usize, w: EdgeWeight)
    requires
        a < graph_nodes(*old(g)).len(),
        b < graph_nodes(*old(g)).len(),
        graph_edges(*old(g)).len() < u32::MAX,
    ensures
        graph_nodes(*final(g)) == graph_nodes(*old(g)),
        graph_edges(*final(g)) == graph_edges(*old(g)).push((a, b, w)),
{
    g.add_edge(NodeIndex::new(a), NodeIndex::new(b), w);
}

/// `Graph::node_count`. With the default `u32` index type a graph never
/// holds more than `u32::MAX` nodes.
#[verifier::external_body]
pub(crate) fn graph_node_count(g: &DiGraph<ModuleNode, EdgeWeight>) -> (r: usize)
    ensures
        r == graph_nodes(*g).len(),
        r <= u32::MAX,
{
    g.node_count()
}

/// `Graph::edge_count`. With the default `u32` index type a graph never
/// holds more than `u32::MAX` edges, and its edges always join existing nodes
/// (`add_edge` panics on a missing endpoint).
#[verifier::external_body]
pub(crate) fn graph_edge_count(g: &DiGraph<ModuleNode, EdgeWeight>) -> (r: usize)
    ensures
        r == graph_edges(*g).len(),
        r <= u32::MAX,
        forall|k: int| 0 <= k < r ==> (#[trigger] graph_edges(*g)[k]).0 < graph_nodes(*g).len()
            && graph_edges(*g)[k].1 < graph_nodes(*g).len(),
{
    g.edge_count()
}

/// `Graph::raw_nodes()[i].weight`.
#[verifier::external_body]
pub(crate) fn graph_node<'a>(g: &'a DiGraph<ModuleNode, EdgeWeight>, i: usize) -> (r: &'a ModuleNode)
    requires
        i < graph_nodes(*g).len(),
    ensures
        *r == graph_nodes(*g)[i as int],
{
    &g.raw_nodes()[i].weight
}

/// Endpoints of edge `k` (`raw_edges()[k]`'s source and target); a graph's
/// edges always join existing nodes.
#[verifier::external_body]
pub(crate) fn graph_edge_ends(g: &DiGraph<ModuleNode, EdgeWeight>, k: usize) -> (r: (usize, usize))
    requires
        k < graph_edges(*g).len(),
    ensures
        r.0 == graph_edges(*g)[k as int].0,
        r.1 == graph_edges(*g)[k as int].1,
        r.0 < graph_nodes(*g).len(),
        r.1 < graph_nodes(*g).len(),
{
    let e = &g.raw_edges()[k];
    (e.source().index(), e.target().index())
}

/// Weight of edge `k` (`raw_edges()[k].weight`).
#[verifier::external_body]
pub(crate) fn graph_edge_weight<'a>(g: &'a DiGraph<ModuleNode, EdgeWeight>, k: usize) -> (r: &'a EdgeWeight)
    requires
        k < graph_edges(*g).len(),
    ensures
        *r == graph_edges(*g)[k as int].2,
{
    &g.raw_edges()[k].weight
}

/// The edges' endpoints, by edge index.
pub open spec fn ends_of(g: DiGraph<ModuleNode, EdgeWeight>) -> Seq<(usize, usize)> {
    graph_edges(g).map_values(|e: (usize, usize, EdgeWeight)| (e.0, e.1))
}

/// The endpoints of a sequence of edges.
pub open spec fn ends_of_seq(edges: Seq<(usize, usize, EdgeWeight)>) -> Seq<(usize, usize)> {
    edges.map_values(|e: (usize, usize, EdgeWeight)| (e.0, e.1))
}

/// `petgraph::algo::tarjan_scc`: the strongly connected components, in
/// reverse topological order (as its documentation states), each as node
/// indices.
#[verifier::external_body]
fn graph_tarjan_scc(g: &DiGraph<ModuleNode, EdgeWeight>) -> (r: Vec<Vec<usize>>)
    ensures
        is_scc_decomposition(graph_nodes(*g).len(), ends_of(*g), comp_views(r@)),
{
    petgraph::algo::tarjan_scc(g).into_iter().map(|c| c.into_iter().map(|n| n.index()).collect()).collect()
}

/// The fully-built module graph.
pub struct ModuleGraph {
    pub graph: DiGraph<ModuleNode, EdgeWeight>,
    /// Granularity used to build this graph.
    pub granularity: usize,
}

/// A directed edge between two module labels, used to identify cuts
/// independently of node indices.
#[derive(Clone, Debug, PartialEq, Eq, Hash)]
pub struct LabelEdge {
    pub source: String,
    pub target: String,
}

/// `(s, t)` is listed among `cuts`.
pub open spec fn cut_listed(cuts: Seq<LabelEdge>, s: Seq<char>, t: Seq<char>) -> bool {
    exists|i: int| 0 <= i < cuts.len() && (#[trigger] cuts[i]).source@ == s && cuts[i].target@ == t
}

/// The edges (by endpoints) whose label pair is not listed among `cuts`, in order.
pub open spec fn kept_edges(ends: Seq<(usize, usize)>, labels: Seq<Seq<char>>, cuts: Seq<LabelEdge>) -> Seq<(usize, usize)>
    decreases ends.len(),
{
    if ends.len() == 0 {
        Seq::empty()
    } else {
        let r = kept_edges(ends.drop_last(), labels, cuts);
        let e = ends.last();
        if cut_listed(cuts, labels[e.0 as int], labels[e.1 as int]) {
            r
        } else {
            r.push(e)
        }
    }
}

pub proof fn lemma_kept_len(ends: Seq<(usize, usize)>, labels: Seq<Seq<char>>, cuts: Seq<LabelEdge>)
    ensures
        kept_edges(ends, labels, cuts).len() <= ends.len(),
    decreases ends.len(),
{
    if ends.len() > 0 {
        lemma_kept_len(ends.drop_last(), labels, cuts);
    }
}

/// An edge is kept exactly when its label pair is not listed among the cuts.
pub proof fn lemma_kept_edges(ends: Seq<(usize, usize)>, labels: Seq<Seq<char>>, cuts: Seq<LabelEdge>)
    ensures
        forall|k: int| 0 <= k < ends.len() && !cut_listed(cuts, labels[ends[k].0 as int], labels[ends[k].1 as int])
            ==> kept_edges(ends, labels, cuts).contains(#[trigger] ends[k]),
        forall|x: int| #![trigger kept_edges(ends, labels, cuts)[x]] 0 <= x < kept_edges(ends, labels, cuts).len() ==> exists|k: int| 0 <= k < ends.len()
            && #[trigger] ends[k] == kept_edges(ends, labels, cuts)[x]
            && !cut_listed(cuts, labels[ends[k].0 as int], labels[ends[k].1 as int]),
    decreases ends.len(),
{
    if ends.len() > 0 {
        let prev = ends.drop_last();
        lemma_kept_edges(prev, labels, cuts);
        let r = kept_edges(prev, labels, cuts);
        let e = ends.last();
        let full = kept_edges(ends, labels, cuts);
        assert forall|k: int| 0 <= k < ends.len() && !cut_listed(cuts, labels[ends[k].0 as int], labels[ends[k].1 as int])
            implies full.contains(#[trigger] ends[k]) by {
            if k < ends.len() - 1 {
                assert(prev[k] == ends[k]);
                assert(r.contains(prev[k]));
                let x = choose|x: int| 0 <= x < r.len() && r[x] == prev[k];
                assert(full[x] == r[x]);
            } else {
                assert(full[full.len() - 1] == e);
            }
        }
        assert forall|x: int| #![trigger full[x]] 0 <= x < full.len() implies exists|k: int| 0 <= k < ends.len()
            && #[trigger] ends[k] == full[x]
            && !cut_listed(cuts, labels[ends[k].0 as int], labels[ends[k].1 as int]) by {
            if x < r.len() {
                assert(full[x] == r[x]);
                let k = choose|k: int| 0 <= k < prev.len() && #[trigger] prev[k] == r[x]
                    && !cut_listed(cuts, labels[prev[k].0 as int], labels[prev[k].1 as int]);
                assert(ends[k] == prev[k]);
            } else {
                assert(ends[ends.len() - 1] == e);
            }
        }
    }
}

/// With nothing cut every edge is kept.
pub proof fn lemma_kept_none(ends: Seq<(usize, usize)>, labels: Seq<Seq<char>>, cuts: Seq<LabelEdge>)
    requires
        cuts.len() == 0,
    ensures
        kept_edges(ends, labels, cuts) == ends,
    decreases ends.len(),
{
    if ends.len() > 0 {
        lemma_kept_none(ends.drop_last(), labels, cuts);
        assert(ends.drop_last().push(ends.last()) =~= ends);
    }
}

/// Every member of `comp` is a member of `whole`.
pub open spec fn members_within(comp: Seq<usize>, whole: Seq<usize>) -> bool {
    forall|i: int| 0 <= i < comp.len() ==> whole.contains(#[trigger] comp[i])
}

/// Every member of `comp` lies in one and the same component of `comps`.
pub open spec fn inside_some(comp: Seq<usize>, comps: Seq<Seq<usize>>) -> bool {
    exists|c: int| 0 <= c < comps.len() && #[trigger] members_within(comp, comps[c])
}

proof fn lemma_fewer_cuts_keep_paths(
    ends: Seq<(usize, usize)>,
    labels: Seq<Seq<char>>,
    cuts1: Seq<LabelEdge>,
    cuts2: Seq<LabelEdge>,
    a: int,
    b: int,
)
    requires
        forall|s: Seq<char>, t: Seq<char>| cut_listed(cuts1, s, t) ==> cut_listed(cuts2, s, t),
        reaches(kept_edges(ends, labels, cuts2), a, b),
    ensures
        reaches(kept_edges(ends, labels, cuts1), a, b),
{
    let k1 = kept_edges(ends, labels, cuts1);
    let k2 = kept_edges(ends, labels, cuts2);
    lemma_kept_edges(ends, labels, cuts1);
    lemma_kept_edges(ends, labels, cuts2);
    let p = choose|p: Seq<int>| #[trigger] is_path(k2, p) && p[0] == a && p.last() == b;
    assert forall|i: int| 0 <= i < p.len() - 1 implies #[trigger] path_step(k1, p, i) by {
        assert(path_step(k2, p, i));
        let x = choose|x: int| 0 <= x < k2.len() && (#[trigger] k2[x]).0 as int == p[i] && k2[x].1 as int == p[i + 1];
        let k = choose|k: int| 0 <= k < ends.len() && #[trigger] ends[k] == k2[x]
            && !cut_listed(cuts2, labels[ends[k].0 as int], labels[ends[k].1 as int]);
        assert(!cut_listed(cuts1, labels[ends[k].0 as int], labels[ends[k].1 as int]));
        assert(k1.contains(ends[k]));
        let y = choose|y: int| 0 <= y < k1.len() && k1[y] == ends[k];
        assert(k1[y].0 as int == p[i] && k1[y].1 as int == p[i + 1]);
    }
    assert(is_path(k1, p));
}

/// Law: cutting more module pairs only splits components further. When
/// every pair `cuts1` lists is also listed by `cuts2`, each component of the
/// graph less `cuts2` lies inside one component of the graph less `cuts1`.
pub proof fn lemma_more_cuts_refine(
    mg: ModuleGraph,
    cuts1: Seq<LabelEdge>,
    cuts2: Seq<LabelEdge>,
    comps1: Seq<Seq<usize>>,
    comps2: Seq<Seq<usize>>,
)
    requires
        forall|s: Seq<char>, t: Seq<char>| cut_listed(cuts1, s, t) ==> cut_listed(cuts2, s, t),
        is_scc_decomposition(mg.nodes().len(), kept_edges(mg.ends(), mg.labels(), cuts1), comps1),
        is_scc_decomposition(mg.nodes().len(), kept_edges(mg.ends(), mg.labels(), cuts2), comps2),
    ensures
        forall|c: int| 0 <= c < comps2.len() ==> #[trigger] inside_some(comps2[c], comps1),
{
    let k1 = kept_edges(mg.ends(), mg.labels(), cuts1);
    let k2 = kept_edges(mg.ends(), mg.labels(), cuts2);
    assert forall|c: int| 0 <= c < comps2.len() implies #[trigger] inside_some(comps2[c], comps1) by {
        let comp = comps2[c];
        assert(comp.len() > 0);
        let v0 = comp[0] as int;
        assert(v0 < mg.nodes().len());
        assert(covered(comps1, v0));
        let c1 = choose|c1: int| #[trigger] in_comp(comps1, c1, v0);
        assert(in_comp(comps2, c, v0));
        assert forall|i: int| 0 <= i < comp.len() implies comps1[c1].contains(#[trigger] comp[i]) by {
            let w = comp[i] as int;
            assert(in_comp(comps2, c, w));
            assert(mutual(k2, v0, w));
            lemma_fewer_cuts_keep_paths(mg.ends(), mg.labels(), cuts1, cuts2, v0, w);
            lemma_fewer_cuts_keep_paths(mg.ends(), mg.labels(), cuts1, cuts2, w, v0);
            assert(mutual(k1, v0, w));
            assert(w < mg.nodes().len());
            assert(covered(comps1, w));
            let c2 = choose|c2: int| #[trigger] in_comp(comps1, c2, w);
            assert(c2 == c1);
        }
        assert(members_within(comp, comps1[c1]));
    }
}

/// Law: with no cuts, the components are the strongly connected components
/// of the whole graph.
pub proof fn lemma_no_cuts_plain(mg: ModuleGraph, cuts: Seq<LabelEdge>, comps: Seq<Seq<usize>>)
    requires
        cuts.len() == 0,
        is_scc_decomposition(mg.nodes().len(), kept_edges(mg.ends(), mg.labels(), cuts), comps),
    ensures
        is_scc_decomposition(mg.nodes().len(), mg.ends(), comps),
{
    lemma_kept_none(mg.ends(), mg.labels(), cuts);
}

impl ModuleGraph {
    /// The nodes, by index.
    pub open spec fn nodes(&self) -> Seq<ModuleNode> {
        graph_nodes(self.graph)
    }

    /// The node labels, by index.
    pub open spec fn labels(&self) -> Seq<Seq<char>> {
        self.nodes().map_values(|n: ModuleNode| node_label(n))
    }

    /// The edges' endpoints, by edge index.
    pub open spec fn ends(&self) -> Seq<(usize, usize)> {
        graph_edges(self.graph).map_values(|e: (usize, usize, EdgeWeight)| (e.0, e.1))
    }

    /// The label of every node, by index.
    pub fn node_labels(&self) -> (r: Vec<String>)
        ensures
            crate::text::views(r@) == self.labels(),
            r@.len() == self.nodes().len(),
    {
        let n = graph_node_count(&self.graph);
        let mut r: Vec<String> = Vec::new();
        let mut i: usize = 0;
        while i < n
            invariant
                n == self.nodes().len(),
                i <= n,
                r@.len() == i,
                forall|j: int| 0 <= j < i ==> #[trigger] r@[j]@ == self.labels()[j],
            decreases n - i,
        {
            r.push(graph_node(&self.graph, i).label());
            i = i + 1;
        }
        proof {
            assert(crate::text::views(r@) =~= self.labels());
        }
        r
    }

    /// Compute the strongly-connected components of this graph with the given
    /// label-edges removed (`G − cuts`), without mutating the graph.
    ///
    /// An edge `s -> t` is removed iff the `(label(s), label(t))` pair is
    /// listed in `cuts`; all parallel occurrences of that module pair go
    /// together. Components come in reverse topological order, as node indices.
    pub fn sccs_without(&self, cuts: &[LabelEdge]) -> (r: Vec<Vec<usize>>)
        ensures
            is_scc_decomposition(self.nodes().len(), kept_edges(self.ends(), self.labels(), cuts@), comp_views(r@)),
    {
        let labels = self.node_labels();
        let n = graph_node_count(&self.graph);
        let e = graph_edge_count(&self.graph);
        let mut filtered = graph_new();
        let mut i: usize = 0;
        while i < n
            invariant
                n == self.nodes().len(),
                n <= u32::MAX,
                i <= n,
                graph_nodes(filtered).len() == i,
                graph_edges(filtered).len() == 0,
            decreases n - i,
        {
            graph_add_node(&mut filtered, ModuleNode { module: ModulePath::crate_root(), loc: 0, file_count: 0, bin: None });
            i = i + 1;
        }
        let mut k: usize = 0;
        proof {
            assert(ends_of(filtered) =~= kept_edges(self.ends().take(0), self.labels(), cuts@));
        }
        while k < e
            invariant
                n == self.nodes().len(),
                e == graph_edges(self.graph).len(),
                e <= u32::MAX,
                k <= e,
                crate::text::views(labels@) == self.labels(),
                labels@.len() == n,
                graph_nodes(filtered).len() == n,
                ends_of(filtered) == kept_edges(self.ends().take(k as int), self.labels(), cuts@),
            decreases e - k,
        {
            let (s, t) = graph_edge_ends(&self.graph, k);
            proof {
                assert(self.ends().take(k + 1).drop_last() =~= self.ends().take(k as int));
                assert(self.ends().take(k + 1).last() == (s, t));
                lemma_kept_len(self.ends().take(k as int), self.labels(), cuts@);
                assert(crate::text::views(labels@)[s as int] == labels@[s as int]@);
                assert(crate::text::views(labels@)[t as int] == labels@[t as int]@);
            }
            if !cut_contains(cuts, &labels[s], &labels[t]) {
                let ghost before = graph_edges(filtered);
                graph_add_edge(&mut filtered, s, t, Vec::new());
                proof {
                    assert(ends_of(filtered) =~= ends_of_seq(before).push((s, t)));
                }
            }
            k = k + 1;
        }
        proof {
            assert(self.ends().take(e as int) =~= self.ends());
        }
        graph_tarjan_scc(&filtered)
    }
}

/// Is `(s, t)` listed among `cuts`?
pub fn cut_contains(cuts: &[LabelEdge], s: &String, t: &String) -> (r: bool)
    ensures
        r == cut_listed(cuts@, s@, t@),
{
    let mut i: usize = 0;
    while i < cuts.len()
        invariant
            i <= cuts@.len(),
            forall|j: int| 0 <= j < i ==> !((#[trigger] cuts@[j]).source@ == s@ && cuts@[j].target@ == t@),
        decreases cuts@.len() - i,
    {
        if cuts[i].source == *s && cuts[i].target == *t {
            return true;
        }
        i = i + 1;
    }
    false
}


/// The synthetic first segment that keeps a binary root's modules apart.
pub open spec fn bin_key_segment(name: Seq<char>) -> Seq<char> {
    seq!['\u{1}'] + "bin:"@ + name
}

/// The node key of a module: its path truncated to the granularity for the
/// library, or the binary's synthetic segment followed by the path truncated
/// to one level less for a binary root.
pub open spec fn node_key_spec(module: Seq<Seq<char>>, kind: ModuleKind, granularity: nat) -> Seq<Seq<char>> {
    match kind {
        ModuleKind::Bin(name) => {
            let g: nat = if granularity >= 1 { (granularity - 1) as nat } else { 0 };
            seq![bin_key_segment(name@)] + module.take(kept_segments(module.len(), g))
        },
        ModuleKind::Lib => module.take(kept_segments(module.len(), granularity)),
    }
}

/// A key identifying a graph node: module path (lib) or a bin root.
pub fn node_key(module: &ModulePath, kind: &ModuleKind, granularity: usize) -> (r: ModulePath)
    ensures
        r@ == node_key_spec(module@, *kind, granularity as nat),
{
    match kind {
        ModuleKind::Bin(name) => {
            let mut first = String::new();
            let c: char = '\u{1}';
            let mut cv: Vec<char> = Vec::new();
            cv.push(c);
            let lead = string_from_chars(&cv);
            first.append(lead.as_str());
            first.append("bin:");
            first.append(name.as_str());
            let g: usize = if granularity >= 1 { granularity - 1 } else { 0 };
            let rest = module.truncate(g);
            let mut segments: Vec<String> = Vec::new();
            segments.push(first);
            let mut i: usize = 0;
            while i < rest.segments.len()
                invariant
                    i <= rest.segments@.len(),
                    segments@.len() == i + 1,
                    segments@[0]@ == bin_key_segment(name@),
                    forall|j: int| 0 <= j < i ==> segments@[j + 1]@ == rest.segments@[j]@,
                decreases rest.segments@.len() - i,
            {
                segments.push(rest.segments[i].clone());
                i = i + 1;
            }
            let r = ModulePath { segments };
            proof {
                assert(cv@ =~= seq!['\u{1}']);
                assert(r@ =~= seq![bin_key_segment(name@)] + rest@);
            }
            r
        },
        ModuleKind::Lib => module.truncate(granularity),
    }
}

/// The module path a `crate::...` reference points at: its segments after a
/// leading `crate` (leading `::` ignored), or just `target_top` when nothing
/// is left.
pub open spec fn target_path_spec(target_top: Seq<char>, full_path: Seq<char>) -> Seq<Seq<char>> {
    let segs = split_seq(trim_start_all(full_path, "::"@), "::"@);
    let segs = if segs.len() > 0 && segs[0] == "crate"@ { segs.drop_first() } else { segs };
    if segs.len() == 0 { seq![target_top] } else { segs }
}

/// Build the target module path from a `crate::...` reference's path string,
/// keeping all segments after `crate` so granularity > 1 can resolve deeper.
pub fn target_module_path(target_top: &str, full_path: &str) -> (r: ModulePath)
    ensures
        r@ == target_path_spec(target_top@, full_path@),
{
    proof {
        reveal_strlit("::");
        reveal_strlit("crate");
    }
    let sep = chars_of("::");
    let cleaned = chars_trim_start_all(&chars_of(full_path), &sep);
    let segs = split_on(&cleaned, &sep);
    let ghost sv = views(segs@);
    let mut out: Vec<String> = Vec::new();
    let mut i: usize = if segs.len() > 0 && str_eq(&segs[0], "crate") { 1 } else { 0 };
    let ghost start = i as int;
    let ghost kept = sv.skip(start);
    proof {
        if start == 1 {
            assert(kept =~= sv.drop_first());
        } else {
            assert(kept =~= sv);
        }
    }
    while i < segs.len()
        invariant
            sv == views(segs@),
            sv.len() == segs@.len(),
            0 <= start <= 1,
            start <= i <= segs@.len(),
            kept == sv.skip(start),
            views(out@) == kept.take(i - start),
        decreases segs@.len() - i,
    {
        let ghost before = views(out@);
        out.push(segs[i].clone());
        proof {
            assert(views(out@) =~= before.push(segs@[i as int]@));
            assert(kept[i - start] == sv[i as int]);
            assert(sv[i as int] == segs@[i as int]@);
            assert(views(out@) =~= kept.take(i + 1 - start));
        }
        i = i + 1;
    }
    proof {
        assert(kept.take(segs@.len() - start) =~= kept);
    }
    if out.len() == 0 {
        out.push(target_top.to_owned());
        proof {
            assert(views(out@) =~= seq![target_top@]);
        }
    }
    ModulePath { segments: out }
}

/// A node being accumulated: key, module, LOC, file count, binary name.
pub type NodeAcc = (Seq<Seq<char>>, Seq<Seq<char>>, nat, nat, Option<Seq<char>>);

/// An occurrence as plain values: file, line, path.
pub type OccView = (Seq<char>, usize, Seq<char>);

/// An edge being accumulated: source and target node, occurrences.
pub type EdgeAcc = (usize, usize, Seq<OccView>);

/// The binary a module kind names, if any.
pub open spec fn kind_bin(kind: ModuleKind) -> Option<Seq<char>> {
    match kind {
        ModuleKind::Bin(name) => Some(name@),
        ModuleKind::Lib => None,
    }
}

/// A node's binary name, as plain text.
pub open spec fn bin_view(bin: Option<String>) -> Option<Seq<char>> {
    match bin {
        Some(name) => Some(name@),
        None => None,
    }
}

/// `m` truncated to the granularity.
pub open spec fn truncated(m: Seq<Seq<char>>, granularity: nat) -> Seq<Seq<char>> {
    m.take(kept_segments(m.len(), granularity))
}

/// Index of the node with this key, if any (the first one).
pub open spec fn key_index(accs: Seq<NodeAcc>, key: Seq<Seq<char>>) -> Option<int>
    decreases accs.len(),
{
    if accs.len() == 0 {
        None
    } else {
        match key_index(accs.drop_last(), key) {
            Some(j) => Some(j),
            None => if accs.last().0 == key { Some(accs.len() - 1) } else { None },
        }
    }
}

/// The nodes of the graph, one per distinct node key in the order first
/// seen: the first file's module truncated to the granularity, the summed
/// LOC, the file count, and the first binary name seen.
pub open spec fn node_accs(files: Seq<DiscoveredFile>, g: nat) -> Seq<NodeAcc>
    decreases files.len(),
{
    if files.len() == 0 {
        Seq::empty()
    } else {
        let acc = node_accs(files.drop_last(), g);
        let f = files.last();
        let key = node_key_spec(f.module@, f.kind, g);
        let bin = kind_bin(f.kind);
        match key_index(acc, key) {
            Some(j) => acc.update(j, (acc[j].0, acc[j].1, acc[j].2 + f.loc as nat, acc[j].3 + 1, if acc[j].4 is Some { acc[j].4 } else { bin })),
            None => acc.push((key, truncated(f.module@, g), f.loc as nat, 1nat, bin)),
        }
    }
}

/// Index of the edge `s -> t`, if any.
pub open spec fn pair_index(edges: Seq<EdgeAcc>, s: usize, t: usize) -> Option<int>
    decreases edges.len(),
{
    if edges.len() == 0 {
        None
    } else {
        match pair_index(edges.drop_last(), s, t) {
            Some(e) => Some(e),
            None => if edges.last().0 == s && edges.last().1 == t { Some(edges.len() - 1) } else { None },
        }
    }
}

/// Add an occurrence to the edge `s -> t`, creating it if new.
pub open spec fn edge_step(edges: Seq<EdgeAcc>, s: usize, t: usize, o: OccView) -> Seq<EdgeAcc> {
    match pair_index(edges, s, t) {
        Some(e) => edges.update(e, (s, t, edges[e].2.push(o))),
        None => edges.push((s, t, seq![o])),
    }
}

/// The source node of a reference: the node of its enclosing module, else
/// the node of its file.
pub open spec fn ref_source(accs: Seq<NodeAcc>, f: DiscoveredFile, r: RefView, g: nat) -> Option<int> {
    match key_index(accs, node_key_spec(r.0, f.kind, g)) {
        Some(j) => Some(j),
        None => key_index(accs, node_key_spec(f.module@, f.kind, g)),
    }
}

/// The target node of a reference: the library module it points at,
/// truncated to the granularity.
pub open spec fn ref_target(accs: Seq<NodeAcc>, r: RefView, g: nat) -> Option<int> {
    key_index(accs, truncated(target_path_spec(r.1, r.4), g))
}

/// The edges after the references of one more file.
pub open spec fn ref_edges(edges: Seq<EdgeAcc>, accs: Seq<NodeAcc>, f: DiscoveredFile, rs: Seq<RefView>, g: nat) -> Seq<EdgeAcc>
    decreases rs.len(),
{
    if rs.len() == 0 {
        edges
    } else {
        let e0 = ref_edges(edges, accs, f, rs.drop_last(), g);
        let r = rs.last();
        match (ref_source(accs, f, r, g), ref_target(accs, r, g)) {
            (Some(s), Some(t)) => if s != t { edge_step(e0, s as usize, t as usize, (r.2, r.3, r.4)) } else { e0 },
            _ => e0,
        }
    }
}

/// The edges of the graph: every resolved reference between two distinct
/// nodes, grouped by node pair in the order first seen.
pub open spec fn all_edges(files: Seq<DiscoveredFile>, refs: Seq<Seq<RefView>>, accs: Seq<NodeAcc>, g: nat) -> Seq<EdgeAcc>
    decreases files.len(),
{
    if files.len() == 0 {
        Seq::empty()
    } else {
        ref_edges(all_edges(files.drop_last(), refs, accs, g), accs, files.last(), refs[files.len() - 1], g)
    }
}

/// Total LOC over the files.
pub open spec fn file_loc_total(files: Seq<DiscoveredFile>) -> nat
    decreases files.len(),
{
    if files.len() == 0 {
        0
    } else {
        file_loc_total(files.drop_last()) + files.last().loc as nat
    }
}

/// Total number of references.
pub open spec fn ref_total(refs: Seq<Seq<RefView>>) -> nat
    decreases refs.len(),
{
    if refs.len() == 0 {
        0
    } else {
        ref_total(refs.drop_last()) + refs.last().len()
    }
}

/// The references of each file, as plain values.
pub open spec fn refs_views(refs: Seq<Vec<Reference>>) -> Seq<Seq<RefView>> {
    refs.map_values(|v: Vec<Reference>| views_of(v@))
}

/// The occurrences of an edge, as plain values.
pub open spec fn occ_views(w: Seq<Occurrence>) -> Seq<OccView> {
    w.map_values(|o: Occurrence| (o.file@, o.line, o.path@))
}

/// `n` is the accumulated node `a`.
pub open spec fn node_is(n: ModuleNode, a: NodeAcc) -> bool {
    n.module@ == a.1 && n.loc == a.2 && n.file_count == a.3 && bin_view(n.bin) == a.4
}

proof fn lemma_key_index(accs: Seq<NodeAcc>, key: Seq<Seq<char>>, j: int)
    requires
        0 <= j <= accs.len(),
        forall|i: int| 0 <= i < j ==> (#[trigger] accs[i]).0 != key,
        j < accs.len() ==> accs[j].0 == key,
    ensures
        key_index(accs, key) == if j < accs.len() { Some(j) } else { None::<int> },
    decreases accs.len(),
{
    if accs.len() > 0 {
        if j < accs.len() {
            if j < accs.len() - 1 {
                lemma_key_index(accs.drop_last(), key, j);
            } else {
                lemma_key_index(accs.drop_last(), key, j);
            }
        } else {
            lemma_key_index(accs.drop_last(), key, j - 1);
        }
    }
}

proof fn lemma_key_index_range(accs: Seq<NodeAcc>, key: Seq<Seq<char>>)
    ensures
        match key_index(accs, key) {
            Some(j) => 0 <= j < accs.len() && accs[j].0 == key,
            None => forall|i: int| 0 <= i < accs.len() ==> (#[trigger] accs[i]).0 != key,
        },
    decreases accs.len(),
{
    if accs.len() > 0 {
        lemma_key_index_range(accs.drop_last(), key);
        assert forall|i: int| 0 <= i < accs.len() - 1 implies accs.drop_last()[i] == #[trigger] accs[i] by {}
    }
}

/// Index of the node whose key is `key`.
fn find_key(keys: &Vec<ModulePath>, key: &ModulePath, accs: Ghost<Seq<NodeAcc>>) -> (r: Option<usize>)
    requires
        keys@.len() == accs@.len(),
        forall|j: int| 0 <= j < keys@.len() ==> (#[trigger] keys@[j])@ == accs@[j].0,
    ensures
        match r {
            Some(j) => key_index(accs@, key@) == Some(j as int),
            None => key_index(accs@, key@) is None,
        },
{
    let mut i: usize = 0;
    while i < keys.len()
        invariant
            keys@.len() == accs@.len(),
            forall|j: int| 0 <= j < keys@.len() ==> (#[trigger] keys@[j])@ == accs@[j].0,
            i <= keys@.len(),
            forall|j: int| 0 <= j < i ==> (#[trigger] accs@[j]).0 != key@,
        decreases keys@.len() - i,
    {
        if keys[i].same_as(key) {
            proof {
                lemma_key_index(accs@, key@, i as int);
            }
            return Some(i);
        }
        proof {
            assert(keys@[i as int]@ == accs@[i as int].0);
        }
        i = i + 1;
    }
    proof {
        lemma_key_index(accs@, key@, i as int);
    }
    None
}

proof fn lemma_file_loc_prefix(files: Seq<DiscoveredFile>, k: int)
    requires
        0 <= k <= files.len(),
    ensures
        file_loc_total(files.take(k)) <= file_loc_total(files),
    decreases files.len(),
{
    if k < files.len() {
        lemma_file_loc_prefix(files.drop_last(), k);
        assert(files.drop_last().take(k) =~= files.take(k));
    } else {
        assert(files.take(k) =~= files);
    }
}

/// A copy of a binary name.
fn copy_bin(bin: &Option<String>) -> (r: Option<String>)
    ensures
        bin_view(r) == bin_view(*bin),
{
    match bin {
        Some(name) => Some(name.clone()),
        None => None,
    }
}

/// First pass: one node per distinct node key, with LOC and file counts.
fn build_nodes(files: &Vec<DiscoveredFile>, g: usize) -> (r: (Vec<ModulePath>, Vec<ModuleNode>))
    requires
        file_loc_total(files@) <= usize::MAX,
    ensures
        r.0@.len() == node_accs(files@, g as nat).len(),
        r.1@.len() == node_accs(files@, g as nat).len(),
        r.1@.len() <= files@.len(),
        forall|j: int| 0 <= j < r.0@.len() ==> (#[trigger] r.0@[j])@ == node_accs(files@, g as nat)[j].0,
        forall|j: int| 0 <= j < r.1@.len() ==> node_is(#[trigger] r.1@[j], node_accs(files@, g as nat)[j]),
{
    let mut keys: Vec<ModulePath> = Vec::new();
    let mut nodes: Vec<ModuleNode> = Vec::new();
    let mut i: usize = 0;
    while i < files.len()
        invariant
            file_loc_total(files@) <= usize::MAX,
            i <= files@.len(),
            keys@.len() == node_accs(files@.take(i as int), g as nat).len(),
            nodes@.len() == keys@.len(),
            nodes@.len() <= i,
            forall|j: int| 0 <= j < keys@.len() ==> (#[trigger] keys@[j])@ == node_accs(files@.take(i as int), g as nat)[j].0,
            forall|j: int| 0 <= j < nodes@.len() ==> node_is(#[trigger] nodes@[j], node_accs(files@.take(i as int), g as nat)[j]),
            forall|j: int| 0 <= j < nodes@.len() ==> (#[trigger] node_accs(files@.take(i as int), g as nat)[j]).2 <= file_loc_total(files@.take(i as int))
                && node_accs(files@.take(i as int), g as nat)[j].3 <= i,
        decreases files@.len() - i,
    {
        let ghost acc = node_accs(files@.take(i as int), g as nat);
        let f = &files[i];
        proof {
            assert(files@.take(i + 1).drop_last() =~= files@.take(i as int));
            assert(files@.take(i + 1).last() == *f);
            lemma_file_loc_prefix(files@, i + 1);
        }
        let key = node_key(&f.module, &f.kind, g);
        let bin: Option<String> = match &f.kind {
            ModuleKind::Bin(name) => Some(name.clone()),
            ModuleKind::Lib => None,
        };
        proof {
            lemma_key_index_range(acc, key@);
        }
        match find_key(&keys, &key, Ghost(acc)) {
            Some(j) => {
                let old = &nodes[j];
                assert(old.loc == acc[j as int].2);
                assert(file_loc_total(files@.take(i + 1)) == file_loc_total(files@.take(i as int)) + f.loc);
                let new_bin = if old.bin.is_none() { bin } else { copy_bin(&old.bin) };
                let n = ModuleNode {
                    module: old.module.clone_path(),
                    loc: old.loc + f.loc,
                    file_count: old.file_count + 1,
                    bin: new_bin,
                };
                nodes[j] = n;
            },
            None => {
                keys.push(key);
                nodes.push(ModuleNode { module: f.module.truncate(g), loc: f.loc, file_count: 1, bin });
            },
        }
        i = i + 1;
    }
    proof {
        assert(files@.take(files@.len() as int) =~= files@);
    }
    (keys, nodes)
}

proof fn lemma_pair_index(edges: Seq<EdgeAcc>, s: usize, t: usize, j: int)
    requires
        0 <= j <= edges.len(),
        forall|i: int| 0 <= i < j ==> !((#[trigger] edges[i]).0 == s && edges[i].1 == t),
        j < edges.len() ==> edges[j].0 == s && edges[j].1 == t,
    ensures
        pair_index(edges, s, t) == if j < edges.len() { Some(j) } else { None::<int> },
    decreases edges.len(),
{
    if edges.len() > 0 {
        if j < edges.len() {
            lemma_pair_index(edges.drop_last(), s, t, j);
        } else {
            lemma_pair_index(edges.drop_last(), s, t, j - 1);
        }
    }
}

proof fn lemma_pair_index_range(edges: Seq<EdgeAcc>, s: usize, t: usize)
    ensures
        pair_index(edges, s, t) matches Some(e) ==> 0 <= e < edges.len() && edges[e].0 == s && edges[e].1 == t,
    decreases edges.len(),
{
    if edges.len() > 0 {
        lemma_pair_index_range(edges.drop_last(), s, t);
    }
}

/// The accumulated edges as plain values.
pub open spec fn edge_views(ps: Seq<usize>, pt: Seq<usize>, po: Seq<Vec<Occurrence>>) -> Seq<EdgeAcc> {
    Seq::new(ps.len(), |e: int| (ps[e], pt[e], occ_views(po[e]@)))
}

/// Index of the edge `s -> t` among the accumulated ones.
fn find_pair(ps: &Vec<usize>, pt: &Vec<usize>, s: usize, t: usize, edges: Ghost<Seq<EdgeAcc>>) -> (r: Option<usize>)
    requires
        ps@.len() == edges@.len(),
        pt@.len() == edges@.len(),
        forall|e: int| 0 <= e < edges@.len() ==> ps@[e] == (#[trigger] edges@[e]).0 && pt@[e] == edges@[e].1,
    ensures
        match r {
            Some(e) => pair_index(edges@, s, t) == Some(e as int) && e < edges@.len(),
            None => pair_index(edges@, s, t) is None,
        },
{
    let mut i: usize = 0;
    while i < ps.len()
        invariant
            ps@.len() == edges@.len(),
            pt@.len() == edges@.len(),
            forall|e: int| 0 <= e < edges@.len() ==> ps@[e] == (#[trigger] edges@[e]).0 && pt@[e] == edges@[e].1,
            i <= ps@.len(),
            forall|e: int| 0 <= e < i ==> !((#[trigger] edges@[e]).0 == s && edges@[e].1 == t),
        decreases ps@.len() - i,
    {
        if ps[i] == s && pt[i] == t {
            proof {
                lemma_pair_index(edges@, s, t, i as int);
            }
            return Some(i);
        }
        proof {
            assert(edges@[i as int].0 == ps@[i as int]);
        }
        i = i + 1;
    }
    proof {
        lemma_pair_index(edges@, s, t, i as int);
    }
    None
}

/// Second pass: resolve each reference to a node pair and accumulate the
/// occurrences per pair.
#[verifier::spinoff_prover]
fn build_edges(
    files: &Vec<DiscoveredFile>,
    refs: &Vec<Vec<Reference>>,
    keys: &Vec<ModulePath>,
    accs: Ghost<Seq<NodeAcc>>,
    g: usize,
) -> (r: (Vec<usize>, Vec<usize>, Vec<Vec<Occurrence>>))
    requires
        refs@.len() == files@.len(),
        keys@.len() == accs@.len(),
        forall|j: int| 0 <= j < keys@.len() ==> (#[trigger] keys@[j])@ == accs@[j].0,
    ensures
        r.0@.len() == r.1@.len(),
        r.0@.len() == r.2@.len(),
        edge_views(r.0@, r.1@, r.2@) == all_edges(files@, refs_views(refs@), accs@, g as nat),
        r.0@.len() <= ref_total(refs_views(refs@)),
        forall|e: int| 0 <= e < r.0@.len() ==> (#[trigger] r.0@[e]) < accs@.len() && r.1@[e] < accs@.len(),
{
    let ghost rv = refs_views(refs@);
    let mut ps: Vec<usize> = Vec::new();
    let mut pt: Vec<usize> = Vec::new();
    let mut po: Vec<Vec<Occurrence>> = Vec::new();
    let mut i: usize = 0;
    proof {
        assert(edge_views(ps@, pt@, po@) =~= all_edges(files@.take(0), rv, accs@, g as nat));
    }
    while i < files.len()
        invariant
            refs@.len() == files@.len(),
            rv == refs_views(refs@),
            keys@.len() == accs@.len(),
            forall|j: int| 0 <= j < keys@.len() ==> (#[trigger] keys@[j])@ == accs@[j].0,
            i <= files@.len(),
            ps@.len() == pt@.len(),
            ps@.len() == po@.len(),
            edge_views(ps@, pt@, po@) == all_edges(files@.take(i as int), rv, accs@, g as nat),
            ps@.len() <= ref_total(rv.take(i as int)),
            forall|e: int| 0 <= e < ps@.len() ==> (#[trigger] ps@[e]) < accs@.len() && pt@[e] < accs@.len(),
        decreases files@.len() - i,
    {
        let f = &files[i];
        let rs = &refs[i];
        let ghost base = edge_views(ps@, pt@, po@);
        let ghost base_count = ps@.len();
        let file_key = node_key(&f.module, &f.kind, g);
        proof {
            assert(rv[i as int] == views_of(rs@));
        }
        let mut j: usize = 0;
        while j < rs.len()
            invariant
                keys@.len() == accs@.len(),
                forall|j: int| 0 <= j < keys@.len() ==> (#[trigger] keys@[j])@ == accs@[j].0,
                file_key@ == node_key_spec(f.module@, f.kind, g as nat),
                j <= rs@.len(),
                ps@.len() == pt@.len(),
                ps@.len() == po@.len(),
                edge_views(ps@, pt@, po@) == ref_edges(base, accs@, *f, views_of(rs@).take(j as int), g as nat),
                ps@.len() <= base_count + j,
                forall|e: int| 0 <= e < ps@.len() ==> (#[trigger] ps@[e]) < accs@.len() && pt@[e] < accs@.len(),
            decreases rs@.len() - j,
        {
            let r = &rs[j];
            let ghost rvw = r@;
            proof {
                assert(views_of(rs@).take(j + 1).drop_last() =~= views_of(rs@).take(j as int));
                assert(views_of(rs@).take(j + 1).last() == rvw);
                lemma_key_index_range(accs@, node_key_spec(r.source@, f.kind, g as nat));
                lemma_key_index_range(accs@, file_key@);
            }
            let nested = node_key(&r.source, &f.kind, g);
            let src = match find_key(keys, &nested, accs) {
                Some(x) => Some(x),
                None => find_key(keys, &file_key, accs),
            };
            let tgt_full = target_module_path(r.target_top.as_str(), r.path.as_str());
            let tgt_key = tgt_full.truncate(g);
            proof {
                lemma_key_index_range(accs@, tgt_key@);
            }
            let tgt = find_key(keys, &tgt_key, accs);
            match (src, tgt) {
                (Some(s), Some(t)) => {
                    if s != t {
                        let o = Occurrence { file: r.file.clone(), line: r.line, path: r.path.clone() };
                        let ghost ev = edge_views(ps@, pt@, po@);
                        match find_pair(&ps, &pt, s, t, Ghost(ev)) {
                            Some(e) => {
                                let ghost old_po = po@;
                                proof {
                                    lemma_pair_index_range(ev, s, t);
                                }
                                let mut v: Vec<Occurrence> = Vec::new();
                                std::mem::swap(&mut v, &mut po[e]);
                                let ghost mid_po = po@;
                                assert(v@ == old_po[e as int]@);
                                let ghost old_v = v@;
                                v.push(o);
                                po[e] = v;
                                proof {
                                    assert(forall|x: int| 0 <= x < po@.len() && x != e ==> po@[x] == mid_po[x]);
                                    assert(forall|x: int| 0 <= x < po@.len() && x != e ==> mid_po[x] == old_po[x]);
                                    assert(po@[e as int]@ == old_v.push(o));
                                    assert(occ_views(po@[e as int]@) =~= occ_views(old_v).push((rvw.2, rvw.3, rvw.4)));
                                    assert(edge_views(ps@, pt@, po@) =~= ev.update(e as int, (s, t, ev[e as int].2.push((rvw.2, rvw.3, rvw.4)))));
                                }
                            },
                            None => {
                                let mut v: Vec<Occurrence> = Vec::new();
                                v.push(o);
                                ps.push(s);
                                pt.push(t);
                                po.push(v);
                                proof {
                                    assert(occ_views(v@) =~= seq![(rvw.2, rvw.3, rvw.4)]);
                                    assert(edge_views(ps@, pt@, po@) =~= ev.push((s, t, seq![(rvw.2, rvw.3, rvw.4)])));
                                }
                            },
                        }
                    }
                },
                _ => {},
            }
            j = j + 1;
        }
        proof {
            assert(views_of(rs@).take(rs@.len() as int) =~= views_of(rs@));
            assert(files@.take(i + 1).drop_last() =~= files@.take(i as int));
            assert(files@.take(i + 1).last() == *f);
            assert(rv.take(i + 1).drop_last() =~= rv.take(i as int));
            assert(views_of(rs@).len() == rs@.len());
        }
        i = i + 1;
    }
    proof {
        assert(files@.take(files@.len() as int) =~= files@);
        assert(rv.take(files@.len() as int) =~= rv);
    }
    (ps, pt, po)
}

/// Build the module graph from a discovery result and the references found
/// in each discovered file (in file order), at the given granularity (at
/// least 1).
///
/// One node per distinct node key (truncated module path, or a binary
/// root's path), carrying LOC and file counts. A reference's source is the
/// node of its enclosing module, falling back to its file's node; its target
/// is the library module it names, truncated. References to an unknown
/// module and self-references are skipped; the rest are collapsed into one
/// edge per node pair, holding every occurrence.
pub fn build_graph(disc: &Discovery, granularity: usize, refs: &Vec<Vec<Reference>>) -> (r: ModuleGraph)
    requires
        refs@.len() == disc.files@.len(),
        disc.files@.len() < u32::MAX,
        ref_total(refs_views(refs@)) < u32::MAX,
        file_loc_total(disc.files@) <= usize::MAX,
    ensures
        r.granularity == if granularity < 1 { 1 } else { granularity },
        graph_nodes(r.graph).len() == node_accs(disc.files@, r.granularity as nat).len(),
        forall|j: int| 0 <= j < graph_nodes(r.graph).len() ==> node_is(#[trigger] graph_nodes(r.graph)[j], node_accs(disc.files@, r.granularity as nat)[j]),
        graph_edges(r.graph).len() == all_edges(disc.files@, refs_views(refs@), node_accs(disc.files@, r.granularity as nat), r.granularity as nat).len(),
        forall|e: int| 0 <= e < graph_edges(r.graph).len() ==> {
            let x = all_edges(disc.files@, refs_views(refs@), node_accs(disc.files@, r.granularity as nat), r.granularity as nat)[e];
            &&& (#[trigger] graph_edges(r.graph)[e]).0 == x.0
            &&& graph_edges(r.graph)[e].1 == x.1
            &&& occ_views(graph_edges(r.graph)[e].2@) == x.2
        },
{
    let g: usize = if granularity < 1 { 1 } else { granularity };
    let files = &disc.files;
    let (keys, mut nodes) = build_nodes(files, g);
    let ghost accs = node_accs(files@, g as nat);
    let (mut ps, mut pt, mut po) = build_edges(files, refs, &keys, Ghost(accs), g);
    let ghost es = edge_views(ps@, pt@, po@);
    let ghost all_nodes = nodes@;
    let ghost all_po = po@;
    let mut graph = graph_new();
    let n = nodes.len();
    let mut i: usize = 0;
    while i < n
        invariant
            n == all_nodes.len(),
            n == accs.len(),
            n < u32::MAX,
            i <= n,
            nodes@ == all_nodes.skip(i as int),
            graph_nodes(graph).len() == i,
            graph_edges(graph).len() == 0,
            forall|j: int| 0 <= j < i ==> #[trigger] graph_nodes(graph)[j] == all_nodes[j],
        decreases n - i,
    {
        let node = nodes.remove(0);
        proof {
            assert(node == all_nodes[i as int]);
        }
        graph_add_node(&mut graph, node);
        proof {
            assert(nodes@ =~= all_nodes.skip(i + 1));
        }
        i = i + 1;
    }
    let m = ps.len();
    let mut k: usize = 0;
    while k < m
        invariant
            m == es.len(),
            m == all_po.len(),
            m < u32::MAX,
            ps@.len() == m,
            pt@.len() == m,
            es == edge_views(ps@, pt@, all_po),
            forall|e: int| 0 <= e < m ==> (#[trigger] ps@[e]) < n && pt@[e] < n,
            n == graph_nodes(graph).len(),
            forall|j: int| 0 <= j < n ==> #[trigger] graph_nodes(graph)[j] == all_nodes[j],
            k <= m,
            po@ == all_po.skip(k as int),
            graph_edges(graph).len() == k,
            forall|e: int| 0 <= e < k ==> (#[trigger] graph_edges(graph)[e]) == (ps@[e], pt@[e], all_po[e]),
        decreases m - k,
    {
        let w = po.remove(0);
        proof {
            assert(w == all_po[k as int]);
        }
        graph_add_edge(&mut graph, ps[k], pt[k], w);
        proof {
            assert(po@ =~= all_po.skip(k + 1));
        }
        k = k + 1;
    }
    let r = ModuleGraph { graph, granularity: g };
    proof {
        assert forall|e: int| 0 <= e < graph_edges(r.graph).len() implies {
            let x = all_edges(disc.files@, refs_views(refs@), node_accs(disc.files@, r.granularity as nat), r.granularity as nat)[e];
            &&& (#[trigger] graph_edges(r.graph)[e]).0 == x.0
            &&& graph_edges(r.graph)[e].1 == x.1
            &&& occ_views(graph_edges(r.graph)[e].2@) == x.2
        } by {
            assert(es[e] == (ps@[e], pt@[e], occ_views(all_po[e]@)));
        }
    }
    r
}

} // verus!
