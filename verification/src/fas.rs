//! Weighted feedback-arc-set heuristic via the Eades–Lin–Smyth (GR) greedy
//! linear arrangement.
//!
//! Given a directed graph with non-negative edge weights, compute a vertex
//! ordering that approximately maximizes the total weight of forward edges.
//! Edges pointing backward in the order form the feedback arc set.
//!
//! The GR heuristic repeatedly peels sinks (appended to the end of the order)
//! and sources (appended to the front part), and when neither remains removes
//! the vertex maximizing `weighted_out_degree − weighted_in_degree`.

use vstd::prelude::*;
use crate::counting::{lemma_distinct_below_len, lemma_distinct_below_full};

verus! {

/// Vertex identifier used by the FAS solver.
pub type NodeId = usize;

/// A weighted directed edge between two vertices in the FAS subgraph.
#[derive(Clone, Copy, Debug, PartialEq, Eq)]
pub struct WeightedEdge {
    pub from: NodeId,
    pub to: NodeId,
    /// Edge weight (e.g. number of reference occurrences).
    pub weight: u64,
}

/// Sum of all edge weights.
pub open spec fn total_weight(edges: Seq<WeightedEdge>) -> int
    decreases edges.len(),
{
    if edges.len() == 0 {
        0
    } else {
        total_weight(edges.drop_last()) + edges.last().weight
    }
}

/// An edge the ordering takes into account: between two distinct listed vertices.
pub open spec fn counted(nodes: Seq<NodeId>, e: WeightedEdge) -> bool {
    e.from != e.to && nodes.contains(e.from) && nodes.contains(e.to)
}

/// Sum of the weights of the counted edges.
pub open spec fn counted_weight(nodes: Seq<NodeId>, edges: Seq<WeightedEdge>) -> int
    decreases edges.len(),
{
    if edges.len() == 0 {
        0
    } else {
        counted_weight(nodes, edges.drop_last()) + (if counted(nodes, edges.last()) { edges.last().weight as int } else { 0 })
    }
}

/// The counted edges weigh no more than all edges together.
pub proof fn lemma_counted_weight_bound(nodes: Seq<NodeId>, edges: Seq<WeightedEdge>)
    ensures
        0 <= counted_weight(nodes, edges) <= total_weight(edges),
    decreases edges.len(),
{
    if edges.len() > 0 {
        lemma_counted_weight_bound(nodes, edges.drop_last());
    }
}

/// Position of a listed vertex in `nodes`.
pub open spec fn pos_in(nodes: Seq<NodeId>, id: NodeId) -> int {
    choose|p: int| 0 <= p < nodes.len() && nodes[p] == id
}

/// The counted edges, in order, as edges between positions of `nodes`.
pub open spec fn pos_edges(nodes: Seq<NodeId>, edges: Seq<WeightedEdge>) -> Seq<PEdge>
    decreases edges.len(),
{
    if edges.len() == 0 {
        Seq::empty()
    } else {
        let prev = pos_edges(nodes, edges.drop_last());
        let e = edges.last();
        if counted(nodes, e) {
            prev.push((pos_in(nodes, e.from) as usize, pos_in(nodes, e.to) as usize, e.weight))
        } else {
            prev
        }
    }
}

/// A state of the peeling: which positions are removed, the head (sources
/// and greedy picks, in removal order) and the tail (sinks, in removal order).
pub type ElsState = (Seq<bool>, Seq<usize>, Seq<usize>);

/// How many positions a state has removed.
pub open spec fn done_count(s: ElsState) -> int {
    (s.1.len() + s.2.len()) as int
}

/// Live weight leaving position `u`.
pub open spec fn live_out_w(pe: Seq<PEdge>, rm: Seq<bool>, u: int) -> int {
    out_part(pe, rm, u, pe.len() as int)
}

/// Live weight entering position `u`.
pub open spec fn live_in_w(pe: Seq<PEdge>, rm: Seq<bool>, u: int) -> int {
    in_part(pe, rm, u, pe.len() as int)
}

/// Live out-weight minus live in-weight of position `u`.
pub open spec fn live_delta(pe: Seq<PEdge>, rm: Seq<bool>, u: int) -> int {
    live_out_w(pe, rm, u) - live_in_w(pe, rm, u)
}

/// One pass over positions `v..n`, removing each live sink met to the tail.
pub open spec fn sink_pass(pe: Seq<PEdge>, n: int, s: ElsState, v: int) -> ElsState
    decreases n - v,
{
    if v >= n {
        s
    } else if !s.0[v] && live_out_w(pe, s.0, v) == 0 {
        sink_pass(pe, n, (s.0.update(v, true), s.1, s.2.push(v as usize)), v + 1)
    } else {
        sink_pass(pe, n, s, v + 1)
    }
}

/// One pass over positions `v..n`, removing each live source met to the head.
pub open spec fn source_pass(pe: Seq<PEdge>, n: int, s: ElsState, v: int) -> ElsState
    decreases n - v,
{
    if v >= n {
        s
    } else if !s.0[v] && live_in_w(pe, s.0, v) == 0 {
        source_pass(pe, n, (s.0.update(v, true), s.1.push(v as usize), s.2), v + 1)
    } else {
        source_pass(pe, n, s, v + 1)
    }
}

/// Sink passes repeated until one removes nothing (at most `fuel` passes).
pub open spec fn sink_rounds(pe: Seq<PEdge>, n: int, s: ElsState, fuel: nat) -> ElsState
    decreases fuel,
{
    if fuel == 0 {
        s
    } else {
        let s2 = sink_pass(pe, n, s, 0);
        if done_count(s2) > done_count(s) {
            sink_rounds(pe, n, s2, (fuel - 1) as nat)
        } else {
            s2
        }
    }
}

/// Source passes repeated until one removes nothing (at most `fuel` passes).
pub open spec fn source_rounds(pe: Seq<PEdge>, n: int, s: ElsState, fuel: nat) -> ElsState
    decreases fuel,
{
    if fuel == 0 {
        s
    } else {
        let s2 = source_pass(pe, n, s, 0);
        if done_count(s2) > done_count(s) {
            source_rounds(pe, n, s2, (fuel - 1) as nat)
        } else {
            s2
        }
    }
}

/// `v` is the first live position whose live out-weight minus in-weight is
/// the largest.
pub open spec fn is_greedy_pick(pe: Seq<PEdge>, n: int, rm: Seq<bool>, v: int) -> bool {
    &&& 0 <= v < n
    &&& !rm[v]
    &&& forall|u: int| 0 <= u < n && !rm[u] ==> #[trigger] live_delta(pe, rm, u) <= live_delta(pe, rm, v)
    &&& forall|u: int| 0 <= u < v && !rm[u] ==> #[trigger] live_delta(pe, rm, u) < live_delta(pe, rm, v)
}

/// The greedy pick of a state.
pub open spec fn greedy_pick(pe: Seq<PEdge>, n: int, rm: Seq<bool>) -> int {
    choose|v: int| is_greedy_pick(pe, n, rm, v)
}

/// Rounds of the heuristic (at most `fuel`): peel sinks, peel sources, and
/// while positions remain, move the greedy pick to the head.
pub open spec fn els_rounds(pe: Seq<PEdge>, n: int, s: ElsState, fuel: nat) -> ElsState
    decreases fuel,
{
    if fuel == 0 || done_count(s) >= n {
        s
    } else {
        let s1 = sink_rounds(pe, n, s, (n + 1) as nat);
        let s2 = source_rounds(pe, n, s1, (n + 1) as nat);
        if done_count(s2) < n {
            let v = greedy_pick(pe, n, s2.0);
            els_rounds(pe, n, (s2.0.update(v, true), s2.1.push(v as usize), s2.2), (fuel - 1) as nat)
        } else {
            s2
        }
    }
}

/// The Eades–Lin–Smyth order of `nodes` under `edges`: the head in removal
/// order followed by the tail in reverse removal order.
pub open spec fn els_order(nodes: Seq<NodeId>, edges: Seq<WeightedEdge>) -> Seq<NodeId> {
    let n = nodes.len() as int;
    let s = els_rounds(pos_edges(nodes, edges), n, (Seq::new(n as nat, |i: int| false), Seq::empty(), Seq::empty()), (n + 1) as nat);
    Seq::new(n as nat, |i: int| nodes[ord_at(s.1, s.2, i) as int])
}

proof fn lemma_greedy_unique(pe: Seq<PEdge>, n: int, rm: Seq<bool>, v: int)
    requires
        is_greedy_pick(pe, n, rm, v),
    ensures
        greedy_pick(pe, n, rm) == v,
{
    let w = greedy_pick(pe, n, rm);
    assert(is_greedy_pick(pe, n, rm, w));
    if w < v {
        assert(live_delta(pe, rm, w) < live_delta(pe, rm, v));
        assert(live_delta(pe, rm, v) <= live_delta(pe, rm, w));
    } else if v < w {
        assert(live_delta(pe, rm, v) < live_delta(pe, rm, w));
        assert(live_delta(pe, rm, w) <= live_delta(pe, rm, v));
    }
}

/// A counted edge `a -> b` of positive weight.
pub open spec fn heavy_edge(nodes: Seq<NodeId>, edges: Seq<WeightedEdge>, a: NodeId, b: NodeId) -> bool {
    exists|k: int|
        0 <= k < edges.len() && #[trigger] edges[k].from == a && edges[k].to == b && edges[k].weight > 0
            && counted(nodes, edges[k])
}

pub open spec fn heavy_step(nodes: Seq<NodeId>, edges: Seq<WeightedEdge>, c: Seq<NodeId>, i: int) -> bool {
    heavy_edge(nodes, edges, c[i], c[i + 1])
}

/// A closed walk of counted positive-weight edges.
pub open spec fn is_heavy_cycle(nodes: Seq<NodeId>, edges: Seq<WeightedEdge>, c: Seq<NodeId>) -> bool {
    &&& c.len() >= 2
    &&& c[0] == c.last()
    &&& forall|i: int| 0 <= i < c.len() - 1 ==> #[trigger] heavy_step(nodes, edges, c, i)
}

/// No cycle of counted positive-weight edges.
pub open spec fn heavy_acyclic(nodes: Seq<NodeId>, edges: Seq<WeightedEdge>) -> bool {
    forall|c: Seq<NodeId>| !#[trigger] is_heavy_cycle(nodes, edges, c)
}

// ---------------------------------------------------------------------------
// Positional model: vertices are positions in `nodes`, edges are triples.

/// An edge between two positions of the vertex list, with its weight.
pub type PEdge = (usize, usize, u64);

pub open spec fn wsum(pe: Seq<PEdge>, k: int) -> int
    decreases k,
{
    if k <= 0 {
        0
    } else {
        wsum(pe, k - 1) + pe[k - 1].2
    }
}

/// Weight of edges among the first `k` leaving `u` towards a live vertex.
pub open spec fn out_part(pe: Seq<PEdge>, rm: Seq<bool>, u: int, k: int) -> int
    decreases k,
{
    if k <= 0 {
        0
    } else {
        out_part(pe, rm, u, k - 1) + (if pe[k - 1].0 == u && !rm[pe[k - 1].1 as int] {
            pe[k - 1].2 as int
        } else {
            0
        })
    }
}

/// Weight of edges among the first `k` entering `u` from a live vertex.
pub open spec fn in_part(pe: Seq<PEdge>, rm: Seq<bool>, u: int, k: int) -> int
    decreases k,
{
    if k <= 0 {
        0
    } else {
        in_part(pe, rm, u, k - 1) + (if pe[k - 1].1 == u && !rm[pe[k - 1].0 as int] {
            pe[k - 1].2 as int
        } else {
            0
        })
    }
}

proof fn lemma_part_range(pe: Seq<PEdge>, rm: Seq<bool>, u: int, k: int, m: int)
    requires
        0 <= k <= m <= pe.len(),
    ensures
        0 <= out_part(pe, rm, u, m) - out_part(pe, rm, u, k) <= wsum(pe, m) - wsum(pe, k),
        0 <= in_part(pe, rm, u, m) - in_part(pe, rm, u, k) <= wsum(pe, m) - wsum(pe, k),
        0 <= wsum(pe, k) <= wsum(pe, m),
    decreases m - k,
{
    if k < m {
        lemma_part_range(pe, rm, u, k, m - 1);
    } else {
        lemma_wsum_nonneg(pe, k);
    }
}

proof fn lemma_wsum_prefix(a: Seq<PEdge>, b: Seq<PEdge>, k: int)
    requires
        0 <= k <= a.len(),
        k <= b.len(),
        forall|i: int| 0 <= i < k ==> a[i] == b[i],
    ensures
        wsum(a, k) == wsum(b, k),
    decreases k,
{
    if k > 0 {
        lemma_wsum_prefix(a, b, k - 1);
    }
}

proof fn lemma_wsum_nonneg(pe: Seq<PEdge>, k: int)
    ensures
        wsum(pe, k) >= 0,
    decreases k,
{
    if k > 0 {
        lemma_wsum_nonneg(pe, k - 1);
    }
}

proof fn lemma_out_zero(pe: Seq<PEdge>, rm: Seq<bool>, u: int, k: int)
    requires
        0 <= k <= pe.len(),
        out_part(pe, rm, u, k) == 0,
    ensures
        forall|i: int|
            0 <= i < k && #[trigger] pe[i].0 == u && !rm[pe[i].1 as int] ==> pe[i].2 == 0,
    decreases k,
{
    if k > 0 {
        lemma_part_range(pe, rm, u, 0, k - 1);
        lemma_out_zero(pe, rm, u, k - 1);
    }
}

proof fn lemma_in_zero(pe: Seq<PEdge>, rm: Seq<bool>, u: int, k: int)
    requires
        0 <= k <= pe.len(),
        in_part(pe, rm, u, k) == 0,
    ensures
        forall|i: int|
            0 <= i < k && #[trigger] pe[i].1 == u && !rm[pe[i].0 as int] ==> pe[i].2 == 0,
    decreases k,
{
    if k > 0 {
        lemma_part_range(pe, rm, u, 0, k - 1);
        lemma_in_zero(pe, rm, u, k - 1);
    }
}

proof fn lemma_out_pos(pe: Seq<PEdge>, rm: Seq<bool>, u: int, k: int) -> (i: int)
    requires
        0 <= k <= pe.len(),
        out_part(pe, rm, u, k) > 0,
    ensures
        0 <= i < k,
        pe[i].0 == u,
        !rm[pe[i].1 as int],
        pe[i].2 > 0,
    decreases k,
{
    if out_part(pe, rm, u, k - 1) > 0 {
        lemma_out_pos(pe, rm, u, k - 1)
    } else {
        k - 1
    }
}

/// Removing `x`, whose live in-edges all weigh nothing, leaves every other
/// live vertex's outgoing live weight unchanged.
proof fn lemma_out_unchanged(pe: Seq<PEdge>, rm: Seq<bool>, x: int, u: int, k: int)
    requires
        0 <= k <= pe.len(),
        0 <= x < rm.len(),
        u != x,
        !rm[u],
        forall|i: int| 0 <= i < pe.len() ==> (#[trigger] pe[i]).1 < rm.len(),
        forall|i: int| 0 <= i < k && pe[i].1 == x && !rm[pe[i].0 as int] ==> #[trigger] pe[i].2 == 0,
    ensures
        out_part(pe, rm.update(x, true), u, k) == out_part(pe, rm, u, k),
    decreases k,
{
    if k > 0 {
        lemma_out_unchanged(pe, rm, x, u, k - 1);
        let t = pe[k - 1].1 as int;
        assert(t < rm.len());
        if pe[k - 1].0 == u && t == x && !rm[x] {
            assert(pe[k - 1].2 == 0);
        }
    }
}

/// Positional edge invariants relating `pe` to the caller's vertices and edges.
#[verifier::opaque]
spec fn pe_wf(nodes: Seq<NodeId>, edges: Seq<WeightedEdge>, pe: Seq<PEdge>) -> bool {
    let n = nodes.len();
    &&& forall|k: int|
        0 <= k < pe.len() ==> {
            &&& (#[trigger] pe[k]).0 < n
            &&& pe[k].1 < n
            &&& pe[k].0 != pe[k].1
            &&& exists|m: int|
                0 <= m < edges.len() && #[trigger] edges[m] == (WeightedEdge {
                    from: nodes[pe[k].0 as int],
                    to: nodes[pe[k].1 as int],
                    weight: pe[k].2,
                })
        }
    &&& forall|m: int|
        0 <= m < edges.len() && counted(nodes, #[trigger] edges[m]) ==> exists|k: int|
            0 <= k < pe.len() && nodes[(#[trigger] pe[k]).0 as int] == edges[m].from
                && nodes[pe[k].1 as int] == edges[m].to && pe[k].2 == edges[m].weight
    &&& wsum(pe, pe.len() as int) <= i64::MAX
}

/// Position of `id` in `nodes`, if listed.
fn index_of(nodes: &[NodeId], id: NodeId) -> (r: Option<usize>)
    ensures
        match r {
            Some(p) => p < nodes@.len() && nodes@[p as int] == id,
            None => !nodes@.contains(id),
        },
{
    let mut i: usize = 0;
    while i < nodes.len()
        invariant
            i <= nodes@.len(),
            forall|j: int| 0 <= j < i ==> nodes@[j] != id,
        decreases nodes@.len() - i,
    {
        if nodes[i] == id {
            return Some(i);
        }
        i = i + 1;
    }
    None
}

spec fn live_ok(pe: Seq<PEdge>, rm: Seq<bool>, live_out: Seq<i64>, live_in: Seq<i64>) -> bool {
    forall|u: int|
        #![trigger live_out[u]]
        #![trigger live_in[u]]
        0 <= u < rm.len() && !rm[u] ==> live_out[u] == out_part(pe, rm, u, pe.len() as int)
            && live_in[u] == in_part(pe, rm, u, pe.len() as int)
}

/// Subtract the contribution of the just-removed vertex `v` from its live
/// neighbours' degrees.
fn detach(
    pe: &Vec<PEdge>,
    removed: &Vec<bool>,
    live_out: &mut Vec<i64>,
    live_in: &mut Vec<i64>,
    v: usize,
)
    requires
        v < removed@.len(),
        removed@[v as int],
        old(live_out)@.len() == removed@.len(),
        old(live_in)@.len() == removed@.len(),
        wsum(pe@, pe@.len() as int) <= i64::MAX,
        forall|k: int|
            0 <= k < pe@.len() ==> (#[trigger] pe@[k]).0 < removed@.len() && pe@[k].1
                < removed@.len() && pe@[k].0 != pe@[k].1,
        live_ok(pe@, removed@.update(v as int, false), old(live_out)@, old(live_in)@),
    ensures
        final(live_out)@.len() == removed@.len(),
        final(live_in)@.len() == removed@.len(),
        live_ok(pe@, removed@, final(live_out)@, final(live_in)@),
{
    let ghost r0 = removed@.update(v as int, false);
    let ghost r1 = removed@;
    let ghost e = pe@.len() as int;
    proof {
        assert(r1 =~= r0.update(v as int, true));
    }
    let mut k: usize = 0;
    while k < pe.len()
        invariant
            0 <= k <= e == pe@.len(),
            v < removed@.len(),
            removed@[v as int],
            r0 == removed@.update(v as int, false),
            r1 == removed@,
            live_out@.len() == r1.len(),
            live_in@.len() == r1.len(),
            wsum(pe@, e) <= i64::MAX,
            forall|j: int|
                0 <= j < pe@.len() ==> (#[trigger] pe@[j]).0 < r1.len() && pe@[j].1 < r1.len()
                    && pe@[j].0 != pe@[j].1,
            forall|u: int|
                #![trigger live_out@[u]]
                #![trigger live_in@[u]]
                0 <= u < r1.len() && !r1[u] ==> live_out@[u] == out_part(pe@, r0, u, e)
                    - out_part(pe@, r0, u, k as int) + out_part(pe@, r1, u, k as int) && live_in@[u]
                    == in_part(pe@, r0, u, e) - in_part(pe@, r0, u, k as int) + in_part(
                    pe@,
                    r1,
                    u,
                    k as int,
                ),
        decreases e - k,
    {
        let (s, t, w) = pe[k];
        let ghost ki = k as int;
        let ghost lo0 = live_out@;
        let ghost li0 = live_in@;
        proof {
            assert(pe@[ki] == (s, t, w));
            assert(s < r1.len() && t < r1.len() && s != t);
            lemma_part_range(pe@, r0, 0, 0, e);
            lemma_part_range(pe@, r0, 0, ki + 1, e);
            lemma_part_range(pe@, r0, 0, 0, ki);
            assert(w <= wsum(pe@, ki + 1) - wsum(pe@, ki));
            assert(w <= i64::MAX);
        }
        let wi: i64 = w as i64;
        if s == v && !removed[t] {
            proof {
                let u = t as int;
                lemma_part_range(pe@, r0, u, ki + 1, e);
                lemma_part_range(pe@, r1, u, 0, ki + 1);
                lemma_part_range(pe@, r0, u, 0, e);
                assert(r0[s as int] == false);
                assert(r1[s as int] == true);
                assert(r0[u] == r1[u]);
                assert(in_part(pe@, r0, u, ki + 1) == in_part(pe@, r0, u, ki) + w);
                assert(in_part(pe@, r1, u, ki + 1) == in_part(pe@, r1, u, ki));
            }
            let cur = live_in[t];
            live_in.set(t, cur - wi);
        }
        if t == v && !removed[s] {
            proof {
                let u = s as int;
                lemma_part_range(pe@, r0, u, ki + 1, e);
                lemma_part_range(pe@, r1, u, 0, ki + 1);
                lemma_part_range(pe@, r0, u, 0, e);
                assert(r0[t as int] == false);
                assert(r1[t as int] == true);
                assert(out_part(pe@, r0, u, ki + 1) == out_part(pe@, r0, u, ki) + w);
                assert(out_part(pe@, r1, u, ki + 1) == out_part(pe@, r1, u, ki));
            }
            let cur = live_out[s];
            live_out.set(s, cur - wi);
        }
        proof {
            assert forall|u: int|
                #![trigger live_out@[u]]
                #![trigger live_in@[u]]
                0 <= u < r1.len() && !r1[u] implies live_out@[u] == out_part(pe@, r0, u, e)
                    - out_part(pe@, r0, u, ki + 1) + out_part(pe@, r1, u, ki + 1) && live_in@[u]
                    == in_part(pe@, r0, u, e) - in_part(pe@, r0, u, ki + 1) + in_part(pe@, r1, u, ki + 1) by {
                assert(r0[t as int] == (if t == v { false } else { r1[t as int] }));
                assert(r0[s as int] == (if s == v { false } else { r1[s as int] }));
                assert(r0[u] == r1[u]);
                assert(out_part(pe@, r0, u, ki + 1) == out_part(pe@, r0, u, ki) + (if s as int == u && !r0[t as int] { w as int } else { 0 }));
                assert(out_part(pe@, r1, u, ki + 1) == out_part(pe@, r1, u, ki) + (if s as int == u && !r1[t as int] { w as int } else { 0 }));
                assert(in_part(pe@, r0, u, ki + 1) == in_part(pe@, r0, u, ki) + (if t as int == u && !r0[s as int] { w as int } else { 0 }));
                assert(in_part(pe@, r1, u, ki + 1) == in_part(pe@, r1, u, ki) + (if t as int == u && !r1[s as int] { w as int } else { 0 }));
                if u != t as int {
                    assert(live_in@[u] == li0[u]);
                }
                if u != s as int {
                    assert(live_out@[u] == lo0[u]);
                }
            }
        }
        k = k + 1;
    }
}

// ---------------------------------------------------------------------------
// Walks and cycles in the positional model.

spec fn pe_step(pe: Seq<PEdge>, a: int, b: int) -> bool {
    exists|k: int| 0 <= k < pe.len() && (#[trigger] pe[k]).0 == a && pe[k].1 == b && pe[k].2 > 0
}

spec fn live_edge(pe: Seq<PEdge>, rm: Seq<bool>, u: int, k: int) -> bool {
    0 <= k < pe.len() && pe[k].0 == u && !rm[pe[k].1 as int] && pe[k].2 > 0
}

spec fn live_succ_edge(pe: Seq<PEdge>, rm: Seq<bool>, u: int) -> int {
    choose|k: int| #[trigger] live_edge(pe, rm, u, k)
}

spec fn live_succ(pe: Seq<PEdge>, rm: Seq<bool>, u: int) -> int {
    pe[live_succ_edge(pe, rm, u)].1 as int
}

spec fn walk(pe: Seq<PEdge>, rm: Seq<bool>, u0: int, len: nat) -> Seq<int>
    decreases len,
{
    if len <= 1 {
        seq![u0]
    } else {
        let w = walk(pe, rm, u0, (len - 1) as nat);
        w.push(live_succ(pe, rm, w.last()))
    }
}

/// When every live vertex has a live positive out-edge, a walk of any length
/// stays among live vertices.
proof fn lemma_walk(pe: Seq<PEdge>, rm: Seq<bool>, u0: int, len: nat)
    requires
        len >= 1,
        0 <= u0 < rm.len(),
        !rm[u0],
        forall|k: int| 0 <= k < pe.len() ==> (#[trigger] pe[k]).1 < rm.len(),
        forall|u: int|
            0 <= u < rm.len() && !rm[u] ==> exists|k: int| #[trigger] live_edge(pe, rm, u, k),
    ensures
        walk(pe, rm, u0, len).len() == len,
        walk(pe, rm, u0, len)[0] == u0,
        forall|i: int|
            0 <= i < len ==> 0 <= #[trigger] walk(pe, rm, u0, len)[i] < rm.len() && !rm[walk(
                pe,
                rm,
                u0,
                len,
            )[i]],
        forall|i: int|
            0 <= i < len - 1 ==> pe_step(pe, #[trigger] walk(pe, rm, u0, len)[i], walk(pe, rm, u0, len)[i + 1]),
    decreases len,
{
    if len > 1 {
        lemma_walk(pe, rm, u0, (len - 1) as nat);
        let w = walk(pe, rm, u0, (len - 1) as nat);
        let u = w.last();
        assert(w[w.len() - 1] == u);
        let k = live_succ_edge(pe, rm, u);
        assert(live_edge(pe, rm, u, k));
        let ww = walk(pe, rm, u0, len);
        assert(ww == w.push(pe[k].1 as int));
        assert forall|i: int| 0 <= i < len - 1 implies pe_step(pe, #[trigger] ww[i], ww[i + 1]) by {
            if i < len - 2 {
                assert(ww[i] == w[i]);
                assert(ww[i + 1] == w[i + 1]);
            } else {
                assert(ww[i] == u);
                assert(pe[k].0 == ww[i] && pe[k].1 == ww[i + 1]);
            }
        }
    }
}

proof fn lemma_pe_bounds(nodes: Seq<NodeId>, edges: Seq<WeightedEdge>, pe: Seq<PEdge>)
    requires
        pe_wf(nodes, edges, pe),
    ensures
        forall|k: int|
            0 <= k < pe.len() ==> (#[trigger] pe[k]).0 < nodes.len() && pe[k].1 < nodes.len() && pe[k].0
                != pe[k].1,
        wsum(pe, pe.len() as int) <= i64::MAX,
{
    reveal(pe_wf);
}

proof fn lemma_pe_step_heavy(nodes: Seq<NodeId>, edges: Seq<WeightedEdge>, pe: Seq<PEdge>, a: int, b: int)
    requires
        nodes.no_duplicates(),
        pe_wf(nodes, edges, pe),
        pe_step(pe, a, b),
    ensures
        heavy_edge(nodes, edges, nodes[a], nodes[b]),
{
    reveal(pe_wf);
    let k = choose|k: int| 0 <= k < pe.len() && (#[trigger] pe[k]).0 == a && pe[k].1 == b && pe[k].2 > 0;
    assert(pe[k].0 < nodes.len() && pe[k].1 < nodes.len() && pe[k].0 != pe[k].1);
    let m = choose|m: int|
        0 <= m < edges.len() && #[trigger] edges[m] == (WeightedEdge {
            from: nodes[pe[k].0 as int],
            to: nodes[pe[k].1 as int],
            weight: pe[k].2,
        });
    assert(nodes.contains(edges[m].from));
    assert(nodes.contains(edges[m].to));
    assert(edges[m].from != edges[m].to);
}

/// If every live vertex (and at least one exists) has a live positive
/// out-edge, the caller's graph has a heavy cycle.
#[verifier::rlimit(50)]
#[verifier::spinoff_prover]
proof fn lemma_no_sink_means_cycle(
    nodes: Seq<NodeId>,
    edges: Seq<WeightedEdge>,
    pe: Seq<PEdge>,
    rm: Seq<bool>,
    u0: int,
)
    requires
        nodes.no_duplicates(),
        rm.len() == nodes.len(),
        pe_wf(nodes, edges, pe),
        0 <= u0 < rm.len(),
        !rm[u0],
        forall|u: int|
            0 <= u < rm.len() && !rm[u] ==> exists|k: int| #[trigger] live_edge(pe, rm, u, k),
    ensures
        !heavy_acyclic(nodes, edges),
{
    let n = rm.len() as int;
    lemma_pe_bounds(nodes, edges, pe);
    let w = walk(pe, rm, u0, (n + 1) as nat);
    lemma_walk(pe, rm, u0, (n + 1) as nat);
    let (a, b) = lemma_repeat(w, n);
    lemma_cycle_from_repeat(nodes, edges, pe, w, a, b);
}

/// A sequence of `n + 1` integers below `n` repeats a value.
proof fn lemma_repeat(w: Seq<int>, n: int) -> (r: (int, int))
    requires
        w.len() == n + 1,
        n >= 0,
        forall|i: int| 0 <= i < w.len() ==> 0 <= #[trigger] w[i] < n,
    ensures
        0 <= r.0 < r.1 < w.len(),
        w[r.0] == w[r.1],
{
    if w.no_duplicates() {
        lemma_distinct_below_len(w, n);
    }
    let (i, j) = choose|i: int, j: int| 0 <= i < w.len() && 0 <= j < w.len() && i != j && w[i] == w[j];
    if i < j { (i, j) } else { (j, i) }
}

proof fn lemma_cycle_from_repeat(
    nodes: Seq<NodeId>,
    edges: Seq<WeightedEdge>,
    pe: Seq<PEdge>,
    w: Seq<int>,
    a: int,
    b: int,
)
    requires
        nodes.no_duplicates(),
        pe_wf(nodes, edges, pe),
        0 <= a < b < w.len(),
        w[a] == w[b],
        forall|i: int| 0 <= i < w.len() ==> 0 <= #[trigger] w[i] < nodes.len(),
        forall|i: int| 0 <= i < w.len() - 1 ==> pe_step(pe, #[trigger] w[i], w[i + 1]),
    ensures
        !heavy_acyclic(nodes, edges),
{
    let c = w.subrange(a, b + 1);
    let ic = c.map_values(|p: int| nodes[p]);
    assert forall|t: int| 0 <= t < ic.len() - 1 implies #[trigger] heavy_step(nodes, edges, ic, t) by {
        assert(pe_step(pe, w[a + t], w[a + t + 1]));
        lemma_pe_step_heavy(nodes, edges, pe, w[a + t], w[a + t + 1]);
        assert(ic[t] == nodes[w[a + t]]);
        assert(ic[t + 1] == nodes[w[a + t + 1]]);
    }
    assert(ic[0] == ic.last());
    assert(is_heavy_cycle(nodes, edges, ic));
}

// ---------------------------------------------------------------------------
// The solver.

/// Bookkeeping shared by the peeling loops.
spec fn state_ok(
    nodes: Seq<NodeId>,
    edges: Seq<WeightedEdge>,
    pe: Seq<PEdge>,
    removed: Seq<bool>,
    live_out: Seq<i64>,
    live_in: Seq<i64>,
    head: Seq<usize>,
    tail: Seq<usize>,
    count: int,
    rtime: Seq<int>,
    kind: Seq<int>,
) -> bool {
    let n = nodes.len();
    let done = head + tail;
    &&& nodes.no_duplicates()
    &&& pe_wf(nodes, edges, pe)
    &&& removed.len() == n && live_out.len() == n && live_in.len() == n
    &&& rtime.len() == n && kind.len() == n
    &&& live_ok(pe, removed, live_out, live_in)
    &&& count == done.len() <= n
    &&& done.no_duplicates()
    &&& forall|i: int| 0 <= i < done.len() ==> (#[trigger] done[i]) < n
    &&& forall|u: int| 0 <= u < n ==> (removed[u] <==> done.contains(u as usize))
    // removal times and kinds
    &&& forall|u: int| 0 <= u < n && removed[u] ==> 0 <= #[trigger] rtime[u] < count
    &&& forall|i: int| 0 <= i < head.len() ==> (kind[#[trigger] head[i] as int] == 1 || kind[head[i] as int] == 2)
    &&& forall|j: int| 0 <= j < tail.len() ==> kind[#[trigger] tail[j] as int] == 0
    &&& forall|i: int, i2: int| 0 <= i < i2 < head.len() ==> rtime[#[trigger] head[i] as int] < rtime[#[trigger] head[i2] as int]
    &&& forall|j: int, j2: int| 0 <= j < j2 < tail.len() ==> rtime[#[trigger] tail[j] as int] < rtime[#[trigger] tail[j2] as int]
    // sinks: heavy out-edges lead to earlier-removed vertices
    &&& forall|u: int, k: int|
        0 <= u < n && removed[u] && kind[u] == 0 && 0 <= k < pe.len() && #[trigger] pe[k].0 == u
            && pe[k].2 > 0 ==> removed[pe[k].1 as int] && rtime[pe[k].1 as int] < #[trigger] rtime[u]
    // sources: heavy in-edges come from earlier-removed vertices
    &&& forall|u: int, k: int|
        0 <= u < n && removed[u] && kind[u] == 1 && 0 <= k < pe.len() && #[trigger] pe[k].1 == u
            && pe[k].2 > 0 ==> removed[pe[k].0 as int] && rtime[pe[k].0 as int] < #[trigger] rtime[u]
    // greedy picks only happen on graphs with a heavy cycle
    &&& forall|u: int| 0 <= u < n && removed[u] && #[trigger] kind[u] == 2 ==> !heavy_acyclic(nodes, edges)
}

/// Appending one more removed vertex keeps the bookkeeping consistent.
proof fn lemma_push_done(head: Seq<usize>, tail: Seq<usize>, x: usize, n: int, to_head: bool)
    requires
        (head + tail).no_duplicates(),
        !(head + tail).contains(x),
    ensures
        to_head ==> (head.push(x) + tail).no_duplicates() && (head.push(x) + tail).to_set() == (head + tail).to_set().insert(x),
        !to_head ==> (head + tail.push(x)).no_duplicates() && (head + tail.push(x)).to_set() == (head + tail).to_set().insert(x),
{
    let d = head + tail;
    if to_head {
        let e = head.push(x) + tail;
        assert forall|i: int, j: int| 0 <= i < j < e.len() implies e[i] != e[j] by {
            let di = if i < head.len() { i } else if i == head.len() { -1 } else { i - 1 };
            let dj = if j < head.len() { j } else if j == head.len() { -1 } else { j - 1 };
            if di >= 0 {
                assert(e[i] == d[di]);
            } else {
                assert(e[i] == x);
            }
            if dj >= 0 {
                assert(e[j] == d[dj]);
            } else {
                assert(e[j] == x);
            }
        }
        assert forall|y: usize| e.to_set().contains(y) <==> d.to_set().insert(x).contains(y) by {
            if e.contains(y) {
                let i = choose|i: int| 0 <= i < e.len() && e[i] == y;
                if i < head.len() {
                    assert(d[i] == y);
                } else if i > head.len() {
                    assert(d[i - 1] == y);
                }
            }
            if d.contains(y) {
                let i = choose|i: int| 0 <= i < d.len() && d[i] == y;
                if i < head.len() {
                    assert(e[i] == y);
                } else {
                    assert(e[i + 1] == y);
                }
            }
            if y == x {
                assert(e[head.len() as int] == x);
            }
        }
        assert(e.to_set() =~= d.to_set().insert(x));
    } else {
        let e = head + tail.push(x);
        assert(e =~= d.push(x));
        assert forall|i: int, j: int| 0 <= i < j < e.len() implies e[i] != e[j] by {
            if j == d.len() {
                assert(e[i] == d[i]);
            }
        }
        assert forall|y: usize| e.to_set().contains(y) <==> d.to_set().insert(x).contains(y) by {
            if e.contains(y) {
                let i = choose|i: int| 0 <= i < e.len() && e[i] == y;
                if i < d.len() {
                    assert(d[i] == y);
                }
            }
            if d.contains(y) {
                let i = choose|i: int| 0 <= i < d.len() && d[i] == y;
                assert(e[i] == y);
            }
            if y == x {
                assert(e[d.len() as int] == x);
            }
        }
        assert(e.to_set() =~= d.to_set().insert(x));
    }
}

/// Mutable state of the peeling loops.
struct Peel {
    removed: Vec<bool>,
    live_out: Vec<i64>,
    live_in: Vec<i64>,
    head: Vec<usize>,
    tail: Vec<usize>,
    count: usize,
    rtime: Ghost<Seq<int>>,
    kind: Ghost<Seq<int>>,
}

impl Peel {
    /// The peeling state this bookkeeping stands for.
    spec fn state(&self) -> ElsState {
        (self.removed@, self.head@, self.tail@)
    }

    spec fn ok(&self, nodes: Seq<NodeId>, edges: Seq<WeightedEdge>, pe: Seq<PEdge>) -> bool {
        state_ok(
            nodes,
            edges,
            pe,
            self.removed@,
            self.live_out@,
            self.live_in@,
            self.head@,
            self.tail@,
            self.count as int,
            self.rtime@,
            self.kind@,
        )
    }

    /// Remove live vertex `v`: as a sink (`k == 0`, appended to the tail), a
    /// source (`k == 1`) or a greedy pick (`k == 2`), both appended to the head.
    fn remove(&mut self, Ghost(nodes): Ghost<Seq<NodeId>>, Ghost(edges): Ghost<Seq<WeightedEdge>>, pe: &Vec<PEdge>, v: usize, k: u8)
        requires
            old(self).ok(nodes, edges, pe@),
            nodes.len() <= usize::MAX,
            v < nodes.len(),
            !old(self).removed@[v as int],
            k <= 2,
            k == 0 ==> out_part(pe@, old(self).removed@, v as int, pe@.len() as int) == 0,
            k == 1 ==> in_part(pe@, old(self).removed@, v as int, pe@.len() as int) == 0,
            k == 2 ==> !heavy_acyclic(nodes, edges),
        ensures
            final(self).ok(nodes, edges, pe@),
            final(self).removed@ == old(self).removed@.update(v as int, true),
            final(self).count == old(self).count + 1,
            k == 0 ==> final(self).tail@ == old(self).tail@.push(v) && final(self).head@ == old(self).head@,
            k != 0 ==> final(self).head@ == old(self).head@.push(v) && final(self).tail@ == old(self).tail@,
    {
        let ghost old_removed = self.removed@;
        let ghost c = self.count as int;
        proof {
            lemma_pe_bounds(nodes, edges, pe@);
            assert(!(self.head@ + self.tail@).contains(v));
            lemma_push_done(self.head@, self.tail@, v, nodes.len() as int, k != 0);
            if k == 0 {
                lemma_out_zero(pe@, old_removed, v as int, pe@.len() as int);
            }
            if k == 1 {
                lemma_in_zero(pe@, old_removed, v as int, pe@.len() as int);
            }
            // The new vertex is not yet counted, so `count < n`.
            let d = (self.head@ + self.tail@).map_values(|x: usize| x as int);
            assert forall|i: int| 0 <= i < d.len() implies 0 <= #[trigger] d[i] < nodes.len() as int by {
                assert(d[i] == (self.head@ + self.tail@)[i] as int);
            }
            assert(d.no_duplicates());
            let dv = d.push(v as int);
            assert forall|i: int| 0 <= i < dv.len() implies 0 <= #[trigger] dv[i] < nodes.len() as int by {
                if i < d.len() {
                    assert(dv[i] == d[i]);
                }
            }
            assert(dv.no_duplicates()) by {
                assert forall|i: int, j: int| 0 <= i < j < dv.len() implies dv[i] != dv[j] by {
                    if j == d.len() {
                        assert(dv[i] == d[i]);
                        assert(d[i] == (self.head@ + self.tail@)[i] as int);
                    } else {
                        assert(dv[i] == d[i] && dv[j] == d[j]);
                    }
                }
            }
            lemma_distinct_below_len(dv, nodes.len() as int);
        }
        if k == 0 {
            self.tail.push(v);
        } else {
            self.head.push(v);
        }
        self.removed.set(v, true);
        self.count = self.count + 1;
        proof {
            self.rtime@ = self.rtime@.update(v as int, c);
            self.kind@ = self.kind@.update(v as int, k as int);
        }
        proof {
            assert(self.removed@.update(v as int, false) =~= old_removed);
        }
        detach(pe, &self.removed, &mut self.live_out, &mut self.live_in, v);
        proof {
            let nh = self.head@;
            let nt = self.tail@;
            let done = nh + nt;
            assert(done.to_set() == (old(self).head@ + old(self).tail@).to_set().insert(v));
            assert forall|u: int| 0 <= u < nodes.len() implies (self.removed@[u] <==> done.contains(u as usize)) by {
                assert(done.to_set().contains(u as usize) <==> done.contains(u as usize));
                assert((old(self).head@ + old(self).tail@).to_set().contains(u as usize) <==> (old(self).head@ + old(self).tail@).contains(u as usize));
            }
            assert forall|i: int| 0 <= i < done.len() implies (#[trigger] done[i]) < nodes.len() by {
                assert(done.contains(done[i]));
                assert(done.to_set().contains(done[i]));
                if done[i] != v {
                    assert((old(self).head@ + old(self).tail@).to_set().contains(done[i]));
                    let j = choose|j: int| 0 <= j < (old(self).head@ + old(self).tail@).len() && (old(self).head@ + old(self).tail@)[j] == done[i];
                    assert((old(self).head@ + old(self).tail@)[j] < nodes.len());
                }
            }
            assert forall|i: int| 0 <= i < nh.len() implies (self.kind@[#[trigger] nh[i] as int] == 1 || self.kind@[nh[i] as int] == 2) by {
                if k != 0 && i == nh.len() - 1 {
                } else {
                    assert(nh[i] == old(self).head@[i]);
                    assert((old(self).head@ + old(self).tail@)[i] == nh[i]);
                    assert(nh[i] != v);
                }
            }
            assert forall|j: int| 0 <= j < nt.len() implies self.kind@[#[trigger] nt[j] as int] == 0 by {
                if k == 0 && j == nt.len() - 1 {
                } else {
                    assert(nt[j] == old(self).tail@[j]);
                    assert((old(self).head@ + old(self).tail@)[old(self).head@.len() + j] == nt[j]);
                    assert(nt[j] != v);
                }
            }
            assert forall|i: int, i2: int| 0 <= i < i2 < nh.len() implies self.rtime@[#[trigger] nh[i] as int] < self.rtime@[#[trigger] nh[i2] as int] by {
                assert(nh[i] == old(self).head@[i]);
                assert((old(self).head@ + old(self).tail@)[i] == nh[i]);
                assert(nh[i] != v);
                assert(old_removed[nh[i] as int]);
                if k != 0 && i2 == nh.len() - 1 {
                } else {
                    assert(nh[i2] == old(self).head@[i2]);
                    assert((old(self).head@ + old(self).tail@)[i2] == nh[i2]);
                    assert(nh[i2] != v);
                }
            }
            assert forall|j: int, j2: int| 0 <= j < j2 < nt.len() implies self.rtime@[#[trigger] nt[j] as int] < self.rtime@[#[trigger] nt[j2] as int] by {
                assert(nt[j] == old(self).tail@[j]);
                assert((old(self).head@ + old(self).tail@)[old(self).head@.len() + j] == nt[j]);
                assert(nt[j] != v);
                assert(old_removed[nt[j] as int]);
                if k == 0 && j2 == nt.len() - 1 {
                } else {
                    assert(nt[j2] == old(self).tail@[j2]);
                    assert((old(self).head@ + old(self).tail@)[old(self).head@.len() + j2] == nt[j2]);
                    assert(nt[j2] != v);
                }
            }
        }
    }
}


/// Some position below `n` is not yet removed while fewer than `n` are.
proof fn lemma_some_live(done: Seq<usize>, n: int) -> (u: int)
    requires
        done.no_duplicates(),
        done.len() < n,
        n <= usize::MAX,
    ensures
        0 <= u < n,
        !done.contains(u as usize),
{
    if forall|u: int| 0 <= u < n ==> done.contains(#[trigger] (u as usize)) {
        let idx = Seq::new(n as nat, |u: int| choose|i: int| 0 <= i < done.len() && done[i] == u as usize);
        assert forall|u: int| 0 <= u < idx.len() implies 0 <= #[trigger] idx[u] < done.len() && done[idx[u]] == u as usize by {
            assert(done.contains(u as usize));
        }
        assert forall|a: int, b: int| 0 <= a < b < idx.len() implies idx[a] != idx[b] by {
            assert(done[idx[a]] == a as usize);
            assert(done[idx[b]] == b as usize);
        }
        lemma_distinct_below_len(idx, done.len() as int);
        assert(false);
    }
    choose|u: int| 0 <= u < n && !done.contains(#[trigger] (u as usize))
}

/// Slot `i` of the final order `head ++ reverse(tail)`.
pub open spec fn ord_at(head: Seq<usize>, tail: Seq<usize>, i: int) -> usize {
    if i < head.len() {
        head[i]
    } else {
        tail[head.len() + tail.len() - 1 - i]
    }
}

/// Index in `head ++ tail` of slot `i` of the final order.
spec fn done_index(head: Seq<usize>, tail: Seq<usize>, i: int) -> int {
    if i < head.len() {
        i
    } else {
        head.len() + (head.len() + tail.len() - 1 - i)
    }
}

proof fn lemma_ord_facts(head: Seq<usize>, tail: Seq<usize>)
    requires
        (head + tail).no_duplicates(),
    ensures
        forall|i: int|
            0 <= i < head.len() + tail.len() ==> 0 <= #[trigger] done_index(head, tail, i) < head.len() + tail.len()
                && (head + tail)[done_index(head, tail, i)] == ord_at(head, tail, i),
        forall|a: int, b: int|
            0 <= a < head.len() + tail.len() && 0 <= b < head.len() + tail.len() && a != b ==> #[trigger] ord_at(head, tail, a)
                != #[trigger] ord_at(head, tail, b),
{
    let done = head + tail;
    assert forall|i: int| 0 <= i < head.len() + tail.len() implies 0 <= #[trigger] done_index(head, tail, i) < head.len() + tail.len()
        && (head + tail)[done_index(head, tail, i)] == ord_at(head, tail, i) by {}
    assert forall|a: int, b: int|
        0 <= a < head.len() + tail.len() && 0 <= b < head.len() + tail.len() && a != b implies #[trigger] ord_at(head, tail, a)
            != #[trigger] ord_at(head, tail, b) by {
        assert(done[done_index(head, tail, a)] == ord_at(head, tail, a));
        assert(done[done_index(head, tail, b)] == ord_at(head, tail, b));
    }
}

/// The final order is a permutation of the listed vertices.
#[verifier::rlimit(40)]
#[verifier::spinoff_prover]
proof fn lemma_final_perm(
    nodes: Seq<NodeId>,
    edges: Seq<WeightedEdge>,
    pe: Seq<PEdge>,
    removed: Seq<bool>,
    live_out: Seq<i64>,
    live_in: Seq<i64>,
    head: Seq<usize>,
    tail: Seq<usize>,
    rtime: Seq<int>,
    kind: Seq<int>,
    r: Seq<NodeId>,
)
    requires
        state_ok(nodes, edges, pe, removed, live_out, live_in, head, tail, nodes.len() as int, rtime, kind),
        r.len() == nodes.len(),
        forall|i: int| 0 <= i < r.len() ==> #[trigger] r[i] == nodes[ord_at(head, tail, i) as int],
    ensures
        r.no_duplicates(),
        forall|x: NodeId| r.contains(x) <==> nodes.contains(x),
{
    let n = nodes.len() as int;
    let done = head + tail;
    lemma_ord_facts(head, tail);
    let di = done.map_values(|x: usize| x as int);
    assert forall|i: int| 0 <= i < di.len() implies 0 <= #[trigger] di[i] < n by {}
    assert(di.no_duplicates()) by {
        assert forall|a: int, b: int| 0 <= a < b < di.len() implies di[a] != di[b] by {
            assert(done[a] != done[b]);
        }
    }
    assert forall|i: int| 0 <= i < n implies ord_at(head, tail, i) < n by {
        assert(done[done_index(head, tail, i)] == ord_at(head, tail, i));
    }
    assert forall|a: int, b: int| 0 <= a < b < r.len() implies r[a] != r[b] by {
        assert(ord_at(head, tail, a) != ord_at(head, tail, b));
        assert(ord_at(head, tail, a) < n);
        assert(ord_at(head, tail, b) < n);
    }
    assert forall|x: NodeId| r.contains(x) <==> nodes.contains(x) by {
        if r.contains(x) {
            let i = choose|i: int| 0 <= i < r.len() && r[i] == x;
            assert(ord_at(head, tail, i) < n);
        }
        if nodes.contains(x) {
            let p = choose|p: int| 0 <= p < n && nodes[p] == x;
            lemma_distinct_below_full(di, n, p);
            let d = choose|d: int| 0 <= d < di.len() && di[d] == p;
            let i = if d < head.len() { d } else { head.len() + tail.len() - 1 - (d - head.len()) };
            assert(done_index(head, tail, i) == d);
            assert(ord_at(head, tail, i) == done[d]);
            assert(r[i] == x);
        }
    }
}

/// On a heavy-acyclic graph the final order keeps every heavy edge forward.
#[verifier::rlimit(100)]
#[verifier::spinoff_prover]
proof fn lemma_final_forward(
    nodes: Seq<NodeId>,
    edges: Seq<WeightedEdge>,
    pe: Seq<PEdge>,
    removed: Seq<bool>,
    live_out: Seq<i64>,
    live_in: Seq<i64>,
    head: Seq<usize>,
    tail: Seq<usize>,
    rtime: Seq<int>,
    kind: Seq<int>,
    r: Seq<NodeId>,
)
    requires
        state_ok(nodes, edges, pe, removed, live_out, live_in, head, tail, nodes.len() as int, rtime, kind),
        r.len() == nodes.len(),
        forall|i: int| 0 <= i < r.len() ==> #[trigger] r[i] == nodes[ord_at(head, tail, i) as int],
        heavy_acyclic(nodes, edges),
    ensures
        forall|k: int, i: int, j: int|
            0 <= k < edges.len() && edges[k].weight > 0 && counted(nodes, #[trigger] edges[k]) && 0 <= i < r.len()
                && 0 <= j < r.len() && #[trigger] r[i] == edges[k].from && #[trigger] r[j] == edges[k].to ==> i < j,
{
    let n = nodes.len() as int;
    let hl = head.len() as int;
    let tl = tail.len() as int;
    let done = head + tail;
    lemma_ord_facts(head, tail);
    reveal(pe_wf);
    assert forall|k: int, i: int, j: int|
        0 <= k < edges.len() && edges[k].weight > 0 && counted(nodes, #[trigger] edges[k]) && 0 <= i < r.len()
            && 0 <= j < r.len() && #[trigger] r[i] == edges[k].from && #[trigger] r[j] == edges[k].to implies i < j by {
        let kk = choose|kk: int|
            0 <= kk < pe.len() && nodes[(#[trigger] pe[kk]).0 as int] == edges[k].from
                && nodes[pe[kk].1 as int] == edges[k].to && pe[kk].2 == edges[k].weight;
        let a = pe[kk].0 as int;
        let b = pe[kk].1 as int;
        let oi = ord_at(head, tail, i);
        let oj = ord_at(head, tail, j);
        assert(done[done_index(head, tail, i)] == oi);
        assert(done[done_index(head, tail, j)] == oj);
        assert(oi < n && oj < n);
        assert(nodes[oi as int] == nodes[a]);
        assert(oi as int == a);
        assert(nodes[oj as int] == nodes[b]);
        assert(oj as int == b);
        assert(done.contains(oi));
        assert(done.contains(oj));
        assert(removed[a]);
        assert(removed[b]);
        if i < hl {
            assert(head[i] as int == a);
            assert(kind[a] == 1 || kind[a] == 2);
        } else {
            assert(tail[hl + tl - 1 - i] as int == a);
            assert(kind[a] == 0);
        }
        if j < hl {
            assert(head[j] as int == b);
            assert(kind[b] == 1 || kind[b] == 2);
        } else {
            assert(tail[hl + tl - 1 - j] as int == b);
            assert(kind[b] == 0);
        }
        assert(kind[a] != 2);
        assert(kind[b] != 2);
        if kind[a] == 0 {
            assert(rtime[b] < rtime[a]);
            assert(kind[b] == 0);
            let ja = hl + tl - 1 - i;
            let jb = hl + tl - 1 - j;
            if ja <= jb {
                if ja < jb {
                    assert(rtime[tail[ja] as int] < rtime[tail[jb] as int]);
                }
                assert(false);
            }
        } else {
            if kind[b] == 1 {
                assert(rtime[a] < rtime[b]);
                if j <= i {
                    if j < i {
                        assert(rtime[head[j] as int] < rtime[head[i] as int]);
                    }
                    assert(false);
                }
            }
        }
    }
}

/// `pe` is a positional copy of the counted edges among the first `m`.
#[verifier::opaque]
spec fn pe_partial(nodes: Seq<NodeId>, edges: Seq<WeightedEdge>, pe: Seq<PEdge>, m: int) -> bool {
    let n = nodes.len();
    &&& forall|k: int|
        0 <= k < pe.len() ==> {
            &&& (#[trigger] pe[k]).0 < n
            &&& pe[k].1 < n
            &&& pe[k].0 != pe[k].1
            &&& exists|mm: int|
                0 <= mm < edges.len() && #[trigger] edges[mm] == (WeightedEdge {
                    from: nodes[pe[k].0 as int],
                    to: nodes[pe[k].1 as int],
                    weight: pe[k].2,
                })
        }
    &&& forall|mm: int|
        0 <= mm < m && counted(nodes, #[trigger] edges[mm]) ==> exists|k: int|
            0 <= k < pe.len() && nodes[(#[trigger] pe[k]).0 as int] == edges[mm].from
                && nodes[pe[k].1 as int] == edges[mm].to && pe[k].2 == edges[mm].weight
    &&& wsum(pe, pe.len() as int) <= counted_weight(nodes, edges.take(m))
}

proof fn lemma_pe_skip(nodes: Seq<NodeId>, edges: Seq<WeightedEdge>, pe: Seq<PEdge>, m: int)
    requires
        0 <= m < edges.len(),
        pe_partial(nodes, edges, pe, m),
        !counted(nodes, edges[m]),
    ensures
        pe_partial(nodes, edges, pe, m + 1),
{
    reveal(pe_partial);
    assert(edges.take(m + 1).drop_last() =~= edges.take(m));
    assert(counted_weight(nodes, edges.take(m + 1)) == counted_weight(nodes, edges.take(m)));
}

proof fn lemma_pe_push(nodes: Seq<NodeId>, edges: Seq<WeightedEdge>, pe: Seq<PEdge>, m: int, p: usize, q: usize)
    requires
        0 <= m < edges.len(),
        pe_partial(nodes, edges, pe, m),
        p < nodes.len(),
        q < nodes.len(),
        nodes[p as int] == edges[m].from,
        nodes[q as int] == edges[m].to,
        edges[m].from != edges[m].to,
    ensures
        pe_partial(nodes, edges, pe.push((p, q, edges[m].weight)), m + 1),
{
    reveal(pe_partial);
    let e = edges[m];
    let pe2 = pe.push((p, q, e.weight));
    assert(edges.take(m + 1).drop_last() =~= edges.take(m));
    assert(nodes.contains(nodes[p as int]) && nodes.contains(nodes[q as int]));
    assert(counted(nodes, e));
    assert(counted_weight(nodes, edges.take(m + 1)) == counted_weight(nodes, edges.take(m)) + e.weight);
    lemma_wsum_prefix(pe2, pe, pe.len() as int);
    assert forall|k: int| 0 <= k < pe2.len() implies {
        &&& (#[trigger] pe2[k]).0 < nodes.len()
        &&& pe2[k].1 < nodes.len()
        &&& pe2[k].0 != pe2[k].1
        &&& exists|mm: int|
            0 <= mm < edges.len() && #[trigger] edges[mm] == (WeightedEdge {
                from: nodes[pe2[k].0 as int],
                to: nodes[pe2[k].1 as int],
                weight: pe2[k].2,
            })
    } by {
        if k < pe.len() {
            assert(pe2[k] == pe[k]);
        } else {
            assert(edges[m] == (WeightedEdge { from: nodes[pe2[k].0 as int], to: nodes[pe2[k].1 as int], weight: pe2[k].2 }));
        }
    }
    assert forall|mm: int|
        0 <= mm < m + 1 && counted(nodes, #[trigger] edges[mm]) implies exists|k: int|
            0 <= k < pe2.len() && nodes[(#[trigger] pe2[k]).0 as int] == edges[mm].from
                && nodes[pe2[k].1 as int] == edges[mm].to && pe2[k].2 == edges[mm].weight by {
        if mm == m {
            assert(pe2[pe.len() as int] == (p, q, e.weight));
        } else {
            let k = choose|k: int|
                0 <= k < pe.len() && nodes[(#[trigger] pe[k]).0 as int] == edges[mm].from
                    && nodes[pe[k].1 as int] == edges[mm].to && pe[k].2 == edges[mm].weight;
            assert(pe2[k] == pe[k]);
        }
    }
}

proof fn lemma_pe_done(nodes: Seq<NodeId>, edges: Seq<WeightedEdge>, pe: Seq<PEdge>)
    requires
        pe_partial(nodes, edges, pe, edges.len() as int),
        counted_weight(nodes, edges) <= i64::MAX,
    ensures
        pe_wf(nodes, edges, pe),
{
    reveal(pe_partial);
    reveal(pe_wf);
    assert(edges.take(edges.len() as int) =~= edges);
}

proof fn lemma_pe_start(nodes: Seq<NodeId>, edges: Seq<WeightedEdge>)
    ensures
        pe_partial(nodes, edges, Seq::empty(), 0),
{
    reveal(pe_partial);
    assert(edges.take(0) =~= Seq::<WeightedEdge>::empty());
}

pub proof fn lemma_pos_in(nodes: Seq<NodeId>, p: int)
    requires
        nodes.no_duplicates(),
        0 <= p < nodes.len(),
    ensures
        pos_in(nodes, nodes[p]) == p,
{
    let q = pos_in(nodes, nodes[p]);
    assert(0 <= q < nodes.len() && nodes[q] == nodes[p]);
}

/// Positional copy of the counted edges.
fn positional_edges(nodes: &[NodeId], edges: &[WeightedEdge]) -> (pe: Vec<PEdge>)
    requires
        nodes@.no_duplicates(),
        counted_weight(nodes@, edges@) <= i64::MAX,
    ensures
        pe_wf(nodes@, edges@, pe@),
        pe@ == pos_edges(nodes@, edges@),
{
    let mut pe: Vec<PEdge> = Vec::new();
    let mut m: usize = 0;
    proof {
        lemma_pe_start(nodes@, edges@);
    }
    while m < edges.len()
        invariant
            m <= edges@.len(),
            nodes@.no_duplicates(),
            pe_partial(nodes@, edges@, pe@, m as int),
            pe@ == pos_edges(nodes@, edges@.take(m as int)),
        decreases edges@.len() - m,
    {
        let e = edges[m];
        proof {
            assert(edges@.take(m + 1).drop_last() =~= edges@.take(m as int));
            assert(edges@.take(m + 1).last() == e);
        }
        let mut pushed = false;
        if e.from != e.to {
            match index_of(nodes, e.from) {
                Some(p) => match index_of(nodes, e.to) {
                    Some(q) => {
                        proof {
                            lemma_pe_push(nodes@, edges@, pe@, m as int, p, q);
                            lemma_pos_in(nodes@, p as int);
                            lemma_pos_in(nodes@, q as int);
                            assert(counted(nodes@, e));
                        }
                        pe.push((p, q, e.weight));
                        pushed = true;
                    },
                    None => {},
                },
                None => {},
            }
        }
        if !pushed {
            proof {
                assert(!counted(nodes@, e));
                lemma_pe_skip(nodes@, edges@, pe@, m as int);
            }
        }
        m = m + 1;
    }
    proof {
        lemma_pe_done(nodes@, edges@, pe@);
        assert(edges@.take(edges@.len() as int) =~= edges@);
    }
    pe
}

/// Live bookkeeping with nothing removed yet.
fn initial_state(Ghost(nodes): Ghost<Seq<NodeId>>, Ghost(edges): Ghost<Seq<WeightedEdge>>, n: usize, pe: &Vec<PEdge>) -> (st: Peel)
    requires
        n == nodes.len(),
        nodes.no_duplicates(),
        pe_wf(nodes, edges, pe@),
    ensures
        st.ok(nodes, edges, pe@),
        st.count == 0,
        st.state() == (Seq::new(n as nat, |i: int| false), Seq::<usize>::empty(), Seq::<usize>::empty()),
{
    let ghost none: Seq<bool> = Seq::new(n as nat, |i: int| false);
    let mut removed: Vec<bool> = Vec::new();
    let mut live_out: Vec<i64> = Vec::new();
    let mut live_in: Vec<i64> = Vec::new();
    let mut i: usize = 0;
    while i < n
        invariant
            i <= n,
            removed@.len() == i && live_out@.len() == i && live_in@.len() == i,
            forall|u: int| 0 <= u < i ==> !removed@[u] && live_out@[u] == 0 && live_in@[u] == 0,
        decreases n - i,
    {
        removed.push(false);
        live_out.push(0);
        live_in.push(0);
        i = i + 1;
    }
    proof {
        assert(removed@ =~= none);
        lemma_pe_bounds(nodes, edges, pe@);
    }
    let mut k: usize = 0;
    while k < pe.len()
        invariant
            k <= pe@.len(),
            removed@ == none,
            none.len() == n,
            forall|u: int| 0 <= u < n ==> !#[trigger] none[u],
            live_out@.len() == n && live_in@.len() == n,
            wsum(pe@, pe@.len() as int) <= i64::MAX,
            forall|j: int| 0 <= j < pe@.len() ==> (#[trigger] pe@[j]).0 < n && pe@[j].1 < n,
            forall|u: int|
                #![trigger live_out@[u]]
                #![trigger live_in@[u]]
                0 <= u < n ==> live_out@[u] == out_part(pe@, none, u, k as int) && live_in@[u]
                    == in_part(pe@, none, u, k as int),
        decreases pe@.len() - k,
    {
        let (p, q, w) = pe[k];
        proof {
            assert(pe@[k as int] == (p, q, w));
            assert(p < n && q < n);
            lemma_part_range(pe@, none, p as int, 0, k + 1);
            lemma_part_range(pe@, none, q as int, 0, k + 1);
            lemma_part_range(pe@, none, 0, k + 1, pe@.len() as int);
            assert(!none[q as int]);
            assert(!none[p as int]);
            assert(out_part(pe@, none, p as int, k + 1) == live_out@[p as int] + w);
            assert(in_part(pe@, none, q as int, k + 1) == live_in@[q as int] + w);
            lemma_part_range(pe@, none, p as int, 0, k as int);
            lemma_part_range(pe@, none, q as int, 0, k as int);
            lemma_part_range(pe@, none, 0, 0, k as int);
            assert(w <= wsum(pe@, k + 1) - wsum(pe@, k as int));
        }
        let wi: i64 = w as i64;
        let a = live_out[p];
        live_out.set(p, a + wi);
        let b = live_in[q];
        live_in.set(q, b + wi);
        proof {
            assert forall|u: int|
                #![trigger live_out@[u]]
                #![trigger live_in@[u]]
                0 <= u < n implies live_out@[u] == out_part(pe@, none, u, k + 1) && live_in@[u]
                    == in_part(pe@, none, u, k + 1) by {
                assert(!none[q as int] && !none[p as int]);
            }
        }
        k = k + 1;
    }
    let st = Peel {
        removed,
        live_out,
        live_in,
        head: Vec::new(),
        tail: Vec::new(),
        count: 0,
        rtime: Ghost(Seq::new(n as nat, |i: int| 0)),
        kind: Ghost(Seq::new(n as nat, |i: int| 0)),
    };
    proof {
        assert(st.head@ + st.tail@ =~= Seq::<usize>::empty());
    }
    st
}

/// Peel sinks until none remains; afterwards every live vertex has positive
/// live out-weight.
fn peel_sinks(st: &mut Peel, Ghost(nodes): Ghost<Seq<NodeId>>, Ghost(edges): Ghost<Seq<WeightedEdge>>, n: usize, pe: &Vec<PEdge>)
    requires
        n == nodes.len(),
        old(st).ok(nodes, edges, pe@),
    ensures
        final(st).ok(nodes, edges, pe@),
        final(st).count >= old(st).count,
        forall|u: int| 0 <= u < n && !final(st).removed@[u] ==> #[trigger] final(st).live_out@[u] > 0,
        final(st).state() == sink_rounds(pe@, n as int, old(st).state(), (n + 1) as nat),
{
    let ghost goal = sink_rounds(pe@, n as int, st.state(), (n + 1) as nat);
    let ghost c_start = st.count as int;
    let ghost mut passes: int = 0;
    let mut progress = true;
    while progress
        invariant
            n == nodes.len(),
            st.ok(nodes, edges, pe@),
            st.count >= old(st).count,
            c_start == old(st).count,
            0 <= passes <= st.count - c_start,
            progress ==> goal == sink_rounds(pe@, n as int, st.state(), (n + 1 - passes) as nat),
            !progress ==> goal == st.state(),
            !progress ==> forall|u: int| 0 <= u < n && !st.removed@[u] ==> #[trigger] st.live_out@[u] != 0,
        decreases n - st.count + (if progress { 1int } else { 0int }),
    {
        progress = false;
        let ghost c0 = st.count;
        let ghost sb = st.state();
        proof {
            assert(st.count as int == done_count(sb));
        }
        let mut v: usize = 0;
        while v < n
            invariant
                n == nodes.len(),
                st.ok(nodes, edges, pe@),
                v <= n,
                st.count >= c0,
                c0 >= old(st).count,
                progress ==> st.count > c0,
                !progress ==> st.count == c0,
                !progress ==> forall|u: int| 0 <= u < v && !st.removed@[u] ==> #[trigger] st.live_out@[u] != 0,
                sink_pass(pe@, n as int, sb, 0) == sink_pass(pe@, n as int, st.state(), v as int),
            decreases n - v,
        {
            if !st.removed[v] && st.live_out[v] == 0 {
                let ghost s_before = st.state();
                proof {
                    assert(live_out_w(pe@, st.removed@, v as int) == 0);
                }
                st.remove(Ghost(nodes), Ghost(edges), pe, v, 0);
                proof {
                    assert(st.state() == (s_before.0.update(v as int, true), s_before.1, s_before.2.push(v)));
                }
                progress = true;
            } else {
                proof {
                    if !st.removed@[v as int] {
                        assert(live_out_w(pe@, st.removed@, v as int) == st.live_out@[v as int]);
                    }
                }
            }
            v = v + 1;
        }
        proof {
            assert(sink_pass(pe@, n as int, sb, 0) == st.state());
            assert(st.count as int == done_count(st.state()));
            if progress {
                passes = passes + 1;
            }
        }
    }
    proof {
        lemma_pe_bounds(nodes, edges, pe@);
        assert forall|u: int| 0 <= u < n && !st.removed@[u] implies #[trigger] st.live_out@[u] > 0 by {
            assert(st.live_out@[u] != 0);
            lemma_part_range(pe@, st.removed@, u, 0, pe@.len() as int);
        }
    }
}

/// Peel sources until none remains, keeping every live out-weight positive;
/// afterwards every live vertex has positive live in-weight as well.
fn peel_sources(st: &mut Peel, Ghost(nodes): Ghost<Seq<NodeId>>, Ghost(edges): Ghost<Seq<WeightedEdge>>, n: usize, pe: &Vec<PEdge>)
    requires
        n == nodes.len(),
        old(st).ok(nodes, edges, pe@),
        forall|u: int| 0 <= u < n && !old(st).removed@[u] ==> #[trigger] old(st).live_out@[u] > 0,
    ensures
        final(st).ok(nodes, edges, pe@),
        final(st).count >= old(st).count,
        forall|u: int| 0 <= u < n && !final(st).removed@[u] ==> #[trigger] final(st).live_out@[u] > 0,
        forall|u: int| 0 <= u < n && !final(st).removed@[u] ==> #[trigger] final(st).live_in@[u] > 0,
        final(st).state() == source_rounds(pe@, n as int, old(st).state(), (n + 1) as nat),
{
    let ghost goal = source_rounds(pe@, n as int, st.state(), (n + 1) as nat);
    let ghost c_start = st.count as int;
    let ghost mut passes: int = 0;
    let mut progress = true;
    while progress
        invariant
            n == nodes.len(),
            st.ok(nodes, edges, pe@),
            st.count >= old(st).count,
            c_start == old(st).count,
            0 <= passes <= st.count - c_start,
            progress ==> goal == source_rounds(pe@, n as int, st.state(), (n + 1 - passes) as nat),
            !progress ==> goal == st.state(),
            forall|u: int| 0 <= u < n && !st.removed@[u] ==> #[trigger] st.live_out@[u] > 0,
            !progress ==> forall|u: int| 0 <= u < n && !st.removed@[u] ==> #[trigger] st.live_in@[u] != 0,
        decreases n - st.count + (if progress { 1int } else { 0int }),
    {
        progress = false;
        let ghost c0 = st.count;
        let ghost sb = st.state();
        proof {
            assert(st.count as int == done_count(sb));
        }
        let mut v: usize = 0;
        while v < n
            invariant
                n == nodes.len(),
                st.ok(nodes, edges, pe@),
                v <= n,
                st.count >= c0,
                c0 >= old(st).count,
                progress ==> st.count > c0,
                !progress ==> st.count == c0,
                forall|u: int| 0 <= u < n && !st.removed@[u] ==> #[trigger] st.live_out@[u] > 0,
                !progress ==> forall|u: int| 0 <= u < v && !st.removed@[u] ==> #[trigger] st.live_in@[u] != 0,
                source_pass(pe@, n as int, sb, 0) == source_pass(pe@, n as int, st.state(), v as int),
            decreases n - v,
        {
            if !st.removed[v] && st.live_in[v] == 0 {
                let ghost r0 = st.removed@;
                let ghost lo0 = st.live_out@;
                let ghost s_before = st.state();
                proof {
                    lemma_pe_bounds(nodes, edges, pe@);
                    lemma_in_zero(pe@, r0, v as int, pe@.len() as int);
                    assert(live_in_w(pe@, st.removed@, v as int) == 0);
                }
                st.remove(Ghost(nodes), Ghost(edges), pe, v, 1);
                proof {
                    assert(st.state() == (s_before.0.update(v as int, true), s_before.1.push(v), s_before.2));
                    assert forall|u: int| 0 <= u < n && !st.removed@[u] implies #[trigger] st.live_out@[u] > 0 by {
                        assert(st.removed@[u] == r0[u]);
                        assert(lo0[u] > 0);
                        lemma_out_unchanged(pe@, r0, v as int, u, pe@.len() as int);
                    }
                }
                progress = true;
            } else {
                proof {
                    if !st.removed@[v as int] {
                        assert(live_in_w(pe@, st.removed@, v as int) == st.live_in@[v as int]);
                    }
                }
            }
            v = v + 1;
        }
        proof {
            assert(source_pass(pe@, n as int, sb, 0) == st.state());
            assert(st.count as int == done_count(st.state()));
            if progress {
                passes = passes + 1;
            }
        }
    }
    proof {
        lemma_pe_bounds(nodes, edges, pe@);
        assert forall|u: int| 0 <= u < n && !st.removed@[u] implies #[trigger] st.live_in@[u] > 0 by {
            assert(st.live_in@[u] != 0);
            lemma_part_range(pe@, st.removed@, u, 0, pe@.len() as int);
        }
    }
}

/// No sink and no source left: take the live vertex maximizing out − in
/// (the first such in `nodes` order).
fn pick_greedy(st: &mut Peel, Ghost(nodes): Ghost<Seq<NodeId>>, Ghost(edges): Ghost<Seq<WeightedEdge>>, n: usize, pe: &Vec<PEdge>)
    requires
        n == nodes.len(),
        old(st).ok(nodes, edges, pe@),
        old(st).count < n,
        forall|u: int| 0 <= u < n && !old(st).removed@[u] ==> #[trigger] old(st).live_out@[u] > 0,
    ensures
        final(st).ok(nodes, edges, pe@),
        final(st).count == old(st).count + 1,
        ({
            let v = greedy_pick(pe@, n as int, old(st).removed@);
            final(st).state() == (old(st).removed@.update(v, true), old(st).head@.push(v as usize), old(st).tail@)
        }),
{
    let ghost some = lemma_some_live(st.head@ + st.tail@, n as int);
    let ghost rm = st.removed@;
    let mut best: usize = 0;
    let mut best_delta: i64 = 0;
    let mut have = false;
    let mut v: usize = 0;
    proof {
        lemma_pe_bounds(nodes, edges, pe@);
    }
    while v < n
        invariant
            n == nodes.len(),
            st.ok(nodes, edges, pe@),
            wsum(pe@, pe@.len() as int) <= i64::MAX,
            v <= n,
            0 <= some < n,
            rm == st.removed@,
            have ==> best < v && !st.removed@[best as int] && best_delta == live_delta(pe@, rm, best as int),
            have ==> forall|u: int| 0 <= u < v && !rm[u] ==> #[trigger] live_delta(pe@, rm, u) <= best_delta,
            have ==> forall|u: int| 0 <= u < best && !rm[u] ==> #[trigger] live_delta(pe@, rm, u) < best_delta,
            !have ==> forall|u: int| 0 <= u < v ==> rm[u],
            (some < v && !st.removed@[some]) ==> have,
        decreases n - v,
    {
        if !st.removed[v] {
            proof {
                lemma_part_range(pe@, st.removed@, v as int, 0, pe@.len() as int);
            }
            let delta = st.live_out[v] - st.live_in[v];
            proof {
                assert(delta == live_delta(pe@, rm, v as int));
            }
            if !have || delta > best_delta {
                best = v;
                best_delta = delta;
                have = true;
            }
        }
        v = v + 1;
    }
    proof {
        assert(!st.removed@[some]);
        assert forall|u: int| 0 <= u < st.removed@.len() && !st.removed@[u] implies exists|k: int| #[trigger] live_edge(pe@, st.removed@, u, k) by {
            assert(st.live_out@[u] > 0);
            let k = lemma_out_pos(pe@, st.removed@, u, pe@.len() as int);
            assert(live_edge(pe@, st.removed@, u, k));
        }
        lemma_no_sink_means_cycle(nodes, edges, pe@, st.removed@, some);
        assert(have);
        assert(is_greedy_pick(pe@, n as int, rm, best as int));
        lemma_greedy_unique(pe@, n as int, rm, best as int);
    }
    st.remove(Ghost(nodes), Ghost(edges), pe, best, 2);
}

/// Compute a vertex ordering (sources first ... sinks last) that approximately
/// maximizes forward-edge weight using the weighted Eades–Lin–Smyth (GR)
/// heuristic.
///
/// `nodes` is the set of vertex ids to order (each distinct). `edges` are the
/// weighted directed edges among them; edges referencing a vertex not in
/// `nodes`, and self-loops, are ignored. The result is exactly `els_order`:
/// sinks peeled to the tail and sources to the head in passes over `nodes`,
/// and when neither remains the first live vertex with the largest live
/// out-weight minus in-weight moved to the head. It is a permutation of
/// `nodes`; an edge `u -> v` is a back-edge iff `v` precedes `u` in it.
pub fn min_fas_order(nodes: &[NodeId], edges: &[WeightedEdge]) -> (r: Vec<NodeId>)
    requires
        nodes@.no_duplicates(),
        counted_weight(nodes@, edges@) <= i64::MAX,
    ensures
        r@ == els_order(nodes@, edges@),
        r@.len() == nodes@.len(),
        r@.no_duplicates(),
        forall|x: NodeId| r@.contains(x) <==> nodes@.contains(x),
        // On a graph without cycles of positive-weight edges, no such edge
        // points backward.
        heavy_acyclic(nodes@, edges@) ==> forall|k: int, i: int, j: int|
            0 <= k < edges@.len() && edges@[k].weight > 0 && counted(nodes@, #[trigger] edges@[k])
                && 0 <= i < r@.len() && 0 <= j < r@.len() && #[trigger] r@[i] == edges@[k].from
                && #[trigger] r@[j] == edges@[k].to ==> i < j,
{
    let n = nodes.len();
    let pe = positional_edges(nodes, edges);
    let mut st = initial_state(Ghost(nodes@), Ghost(edges@), n, &pe);
    let ghost goal = els_rounds(pe@, n as int, st.state(), (n + 1) as nat);
    let ghost mut iters: int = 0;
    while st.count < n
        invariant
            n == nodes@.len(),
            st.ok(nodes@, edges@, pe@),
            0 <= iters <= st.count,
            goal == els_rounds(pe@, n as int, st.state(), (n + 1 - iters) as nat),
        decreases n - st.count,
    {
        let ghost s0 = st.state();
        proof {
            assert(done_count(s0) == st.count as int);
        }
        // 1. Peel sinks; 2. peel sources.
        peel_sinks(&mut st, Ghost(nodes@), Ghost(edges@), n, &pe);
        peel_sources(&mut st, Ghost(nodes@), Ghost(edges@), n, &pe);
        let ghost s2 = st.state();
        proof {
            assert(done_count(s2) == st.count as int);
        }
        // 3. Neither left: greedy pick.
        if st.count < n {
            pick_greedy(&mut st, Ghost(nodes@), Ghost(edges@), n, &pe);
            proof {
                iters = iters + 1;
            }
        } else {
            proof {
                assert(goal == s2);
                assert(els_rounds(pe@, n as int, s2, (n + 1 - iters) as nat) == s2);
            }
        }
    }
    proof {
        assert(done_count(st.state()) == st.count as int);
        assert(goal == st.state());
    }
    // Final order: head (in selection order) followed by the tail reversed.
    let mut r: Vec<NodeId> = Vec::new();
    let mut i: usize = 0;
    while i < st.head.len()
        invariant
            st.ok(nodes@, edges@, pe@),
            n == nodes@.len(),
            i <= st.head@.len(),
            r@.len() == i,
            forall|j: int| 0 <= j < i ==> r@[j] == nodes@[#[trigger] st.head@[j] as int],
        decreases st.head@.len() - i,
    {
        let p = st.head[i];
        proof {
            assert((st.head@ + st.tail@)[i as int] == p);
        }
        r.push(nodes[p]);
        i = i + 1;
    }
    let mut j: usize = st.tail.len();
    while j > 0
        invariant
            st.ok(nodes@, edges@, pe@),
            n == nodes@.len(),
            j <= st.tail@.len(),
            r@.len() == st.head@.len() + st.tail@.len() - j,
            forall|x: int| 0 <= x < st.head@.len() ==> r@[x] == nodes@[#[trigger] st.head@[x] as int],
            forall|y: int| j <= y < st.tail@.len() ==> r@[st.head@.len() + st.tail@.len() - 1 - y] == nodes@[#[trigger] st.tail@[y] as int],
        decreases j,
    {
        j = j - 1;
        let p = st.tail[j];
        proof {
            assert((st.head@ + st.tail@)[st.head@.len() + j] == p);
        }
        r.push(nodes[p]);
    }
    proof {
        assert forall|i: int| 0 <= i < r@.len() implies #[trigger] r@[i] == nodes@[ord_at(st.head@, st.tail@, i) as int] by {
            if i >= st.head@.len() {
                let y = st.head@.len() + st.tail@.len() - 1 - i;
                assert(r@[st.head@.len() + st.tail@.len() - 1 - y] == nodes@[st.tail@[y] as int]);
            }
        }
        lemma_final_perm(nodes@, edges@, pe@, st.removed@, st.live_out@, st.live_in@, st.head@, st.tail@, st.rtime@, st.kind@, r@);
        if heavy_acyclic(nodes@, edges@) {
            lemma_final_forward(nodes@, edges@, pe@, st.removed@, st.live_out@, st.live_in@, st.head@, st.tail@, st.rtime@, st.kind@, r@);
        }
        assert(r@ =~= els_order(nodes@, edges@));
    }
    r
}

/// An edge the ordering counts, as a predicate.
pub open spec fn counted_in(nodes: Seq<NodeId>) -> spec_fn(WeightedEdge) -> bool {
    |e: WeightedEdge| counted(nodes, e)
}

proof fn lemma_pos_edges_filter(nodes: Seq<NodeId>, edges: Seq<WeightedEdge>)
    ensures
        pos_edges(nodes, edges) == pos_edges(nodes, edges.filter(counted_in(nodes))),
    decreases edges.len(),
{
    reveal(Seq::filter);
    if edges.len() > 0 {
        lemma_pos_edges_filter(nodes, edges.drop_last());
        let f = edges.filter(counted_in(nodes));
        let f0 = edges.drop_last().filter(counted_in(nodes));
        if counted(nodes, edges.last()) {
            assert(f == f0.push(edges.last()));
            assert(f.drop_last() =~= f0);
        } else {
            assert(f == f0);
        }
    }
}

/// Law: self-loops and edges with an end outside `nodes` do not change the
/// order: it is the order of the counted edges alone.
pub proof fn lemma_els_ignores_uncounted(nodes: Seq<NodeId>, edges: Seq<WeightedEdge>)
    ensures
        els_order(nodes, edges) == els_order(nodes, edges.filter(counted_in(nodes))),
{
    lemma_pos_edges_filter(nodes, edges);
}

} // verus!
