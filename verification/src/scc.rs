//! Reachability and strongly-connected-component decompositions of a
//! directed graph given by its vertex count and edge list.

use vstd::prelude::*;

verus! {

/// There is an edge `a -> b`.
pub open spec fn has_edge(edges: Seq<(usize, usize)>, a: int, b: int) -> bool {
    exists|k: int| 0 <= k < edges.len() && (#[trigger] edges[k]).0 as int == a && edges[k].1 as int == b
}

/// Consecutive vertices `i` and `i + 1` of `p` are joined by an edge.
pub open spec fn path_step(edges: Seq<(usize, usize)>, p: Seq<int>, i: int) -> bool {
    has_edge(edges, p[i], p[i + 1])
}

/// A non-empty walk along edges.
pub open spec fn is_path(edges: Seq<(usize, usize)>, p: Seq<int>) -> bool {
    p.len() > 0 && forall|i: int| 0 <= i < p.len() - 1 ==> #[trigger] path_step(edges, p, i)
}

/// `b` is reachable from `a` (every vertex reaches itself).
pub open spec fn reaches(edges: Seq<(usize, usize)>, a: int, b: int) -> bool {
    exists|p: Seq<int>| #[trigger] is_path(edges, p) && p[0] == a && p.last() == b
}

/// `a` and `b` reach each other.
pub open spec fn mutual(edges: Seq<(usize, usize)>, a: int, b: int) -> bool {
    reaches(edges, a, b) && reaches(edges, b, a)
}

/// Vertex `v` belongs to component `c`.
pub open spec fn in_comp(comps: Seq<Seq<usize>>, c: int, v: int) -> bool {
    0 <= c < comps.len() && 0 <= v <= usize::MAX && comps[c].contains(v as usize)
}

/// Vertex `v` belongs to some component.
pub open spec fn covered(comps: Seq<Seq<usize>>, v: int) -> bool {
    exists|c: int| #[trigger] in_comp(comps, c, v)
}

/// `comps` lists the strongly connected components of the graph with
/// vertices `0..n` and the given edges: every vertex lies in exactly one
/// component, two vertices share a component iff they reach each other, and
/// components are in reverse topological order (an edge between two
/// components goes from a later one to an earlier one).
pub open spec fn is_scc_decomposition(n: nat, edges: Seq<(usize, usize)>, comps: Seq<Seq<usize>>) -> bool {
    &&& forall|c: int| 0 <= c < comps.len() ==> (#[trigger] comps[c]).len() > 0 && comps[c].no_duplicates()
    &&& forall|c: int, i: int| 0 <= c < comps.len() && 0 <= i < comps[c].len() ==> (#[trigger] comps[c][i]) < n
    &&& forall|v: int| 0 <= v < n ==> #[trigger] covered(comps, v)
    &&& forall|c1: int, c2: int, v: int| #[trigger] in_comp(comps, c1, v) && #[trigger] in_comp(comps, c2, v) ==> c1 == c2
    &&& forall|c: int, a: int, b: int| #[trigger] in_comp(comps, c, a) && #[trigger] in_comp(comps, c, b) ==> mutual(edges, a, b)
    &&& forall|c1: int, c2: int, a: int, b: int|
        #[trigger] in_comp(comps, c1, a) && #[trigger] in_comp(comps, c2, b) && mutual(edges, a, b) ==> c1 == c2
    &&& forall|k: int, c1: int, c2: int|
        0 <= k < edges.len() && #[trigger] in_comp(comps, c1, edges[k].0 as int) && #[trigger] in_comp(comps, c2, edges[k].1 as int)
            && c1 != c2 ==> c2 < c1
}

/// The component views of a vector of components.
pub open spec fn comp_views(v: Seq<Vec<usize>>) -> Seq<Seq<usize>> {
    v.map_values(|c: Vec<usize>| c@)
}

} // verus!
