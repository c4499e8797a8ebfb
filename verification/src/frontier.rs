//! Effort/payoff frontier: for each prefix of the cheapest-first cut set,
//! recompute the decomposition of `G − (first k cuts)` and record the
//! tradeoff between refactoring effort (occurrences cut) and payoff (finer
//! crates, smaller largest crate).
//!
//! Removing a single edge often does NOT shrink the big SCC until a *key*
//! edge goes; the `largest_loc` column makes those "unlock points" visible.

use vstd::prelude::*;
use crate::analyze::{
    BackEdge, cost_sum, cost_prefix, cut_pairs, cut_edges, lemma_pairs_kept, largest_comp_loc,
    largest_loc_of, node_locs, single_labels, listed_not, standalone_among,
};
use crate::counting::seq_sum;
use crate::graph::{ModuleGraph, kept_edges};
use crate::scc::{is_scc_decomposition, comp_views};
use crate::sort::{sorted_seqs, dedup_seq};
use crate::text::views;
use crate::modpath::clone_strings;

verus! {

/// One row of the frontier: the decomposition after applying the `k` cheapest
/// cuts.
#[derive(Clone, Debug, PartialEq, Eq)]
pub struct FrontierStep {
    /// Number of cuts applied (`k`).
    pub cuts_applied: usize,
    /// Cumulative reference occurrences cut across those `k` cuts.
    pub refs_cut: usize,
    /// Number of proposed crates (SCCs) at this step.
    pub crate_count: usize,
    /// LOC of the largest proposed crate at this step.
    pub largest_loc: usize,
    /// Modules that became standalone (their own crate) AT THIS step — i.e.
    /// were not standalone at any earlier step.
    pub freed_modules: Vec<String>,
}

/// The modules freed by the rows so far, in row order.
pub open spec fn freed_so_far(rows: Seq<FrontierStep>) -> Seq<Seq<char>>
    decreases rows.len(),
{
    if rows.len() == 0 {
        Seq::empty()
    } else {
        freed_so_far(rows.drop_last()) + views(rows.last().freed_modules@)
    }
}

/// `step` describes the decomposition `comps` of the graph with the first
/// `k` cuts removed, given the rows before it.
pub open spec fn row_of(
    step: FrontierStep,
    mg: ModuleGraph,
    cuts: Seq<BackEdge>,
    locked: Seq<Seq<char>>,
    earlier: Seq<FrontierStep>,
    k: int,
    comps: Seq<Seq<usize>>,
) -> bool {
    &&& step.cuts_applied == k
    &&& step.refs_cut == cost_sum(cuts.take(k))
    &&& is_scc_decomposition(mg.nodes().len(), kept_edges(mg.ends(), mg.labels(), cut_edges(cuts.take(k))), comps)
    &&& step.crate_count == comps.len()
    &&& step.largest_loc == largest_comp_loc(node_locs(mg), comps)
    &&& views(step.freed_modules@) == dedup_seq(sorted_seqs(single_labels(comps, mg.labels(), listed_not(locked, freed_so_far(earlier)))))
}

/// Row `k` is right for some decomposition of the graph less its first `k`
/// cuts.
pub open spec fn row_ok(step: FrontierStep, mg: ModuleGraph, cuts: Seq<BackEdge>, locked: Seq<Seq<char>>, earlier: Seq<FrontierStep>, k: int) -> bool {
    exists|comps: Seq<Seq<usize>>| #[trigger] row_of(step, mg, cuts, locked, earlier, k, comps)
}

/// One frontier row: the decomposition after the `k` cheapest cuts.
fn frontier_step(
    mg: &ModuleGraph,
    labels: &Vec<String>,
    back_edges: &Vec<BackEdge>,
    locked: &Vec<String>,
    already_free: &Vec<String>,
    k: usize,
    earlier: Ghost<Seq<FrontierStep>>,
) -> (r: FrontierStep)
    requires
        views(labels@) == mg.labels(),
        views(already_free@) == freed_so_far(earlier@),
        k <= back_edges@.len(),
        cost_sum(back_edges@) <= usize::MAX,
        seq_sum(node_locs(*mg)) <= usize::MAX,
    ensures
        row_ok(r, *mg, back_edges@, views(locked@), earlier@, k as int),
{
    let applied = cut_pairs(back_edges, k);
    let refs_cut = cost_prefix(back_edges, k);
    let sccs = mg.sccs_without(applied.as_slice());
    let ghost cv = comp_views(sccs@);
    proof {
        lemma_pairs_kept(mg.ends(), mg.labels(), applied@, back_edges@.take(k as int));
        assert(mg.labels().len() == mg.nodes().len());
        assert(views(labels@).len() == labels@.len());
        assert forall|c: int| 0 <= c < sccs@.len() implies (#[trigger] sccs@[c])@.no_duplicates() by {
            assert(cv[c] == sccs@[c]@);
        }
        assert forall|c: int, x: int| 0 <= c < sccs@.len() && 0 <= x < sccs@[c]@.len() implies (#[trigger] sccs@[c]@[x]) < mg.nodes().len() by {
            assert(cv[c][x] == sccs@[c]@[x]);
        }
    }
    let crate_count = sccs.len();
    let largest_loc = largest_loc_of(mg, &sccs);
    let freed_modules = standalone_among(labels, &sccs, locked, already_free);
    let step = FrontierStep { cuts_applied: k, refs_cut, crate_count, largest_loc, freed_modules };
    proof {
        assert(row_of(step, *mg, back_edges@, views(locked@), earlier@, k as int, cv));
    }
    step
}

/// Compute the frontier over the full (cheapest-first) `back_edges` cut set:
/// one row for each `k = 0..=back_edges.len()`.
///
/// `locked_in_raw` are the module labels that sit in a multi-module SCC of
/// the raw graph (the candidates that can be "freed"); each row reports the
/// ones that became standalone at that step.
pub fn compute_frontier(
    mg: &ModuleGraph,
    _prefix: &str,
    back_edges: &Vec<BackEdge>,
    locked_in_raw: &Vec<String>,
) -> (r: Vec<FrontierStep>)
    requires
        cost_sum(back_edges@) <= usize::MAX,
        seq_sum(node_locs(*mg)) <= usize::MAX,
    ensures
        r@.len() == back_edges@.len() + 1,
        forall|k: int| 0 <= k < r@.len() ==> row_ok(#[trigger] r@[k], *mg, back_edges@, views(locked_in_raw@), r@.take(k), k),
{
    let labels = mg.node_labels();
    let mut steps: Vec<FrontierStep> = Vec::new();
    let mut already_free: Vec<String> = Vec::new();
    let mut k: usize = 0;
    let n = back_edges.len();
    let mut done = false;
    while !done
        invariant
            views(labels@) == mg.labels(),
            n == back_edges@.len(),
            cost_sum(back_edges@) <= usize::MAX,
            seq_sum(node_locs(*mg)) <= usize::MAX,
            k <= n,
            !done ==> steps@.len() == k,
            done ==> steps@.len() == n + 1,
            views(already_free@) == freed_so_far(steps@),
            forall|j: int| 0 <= j < steps@.len() ==> row_ok(#[trigger] steps@[j], *mg, back_edges@, views(locked_in_raw@), steps@.take(j), j),
        decreases n - k, if done { 0int } else { 1int },
    {
        let step = frontier_step(mg, &labels, back_edges, locked_in_raw, &already_free, k, Ghost(steps@));
        let ghost before = steps@;
        let ghost before_free = views(already_free@);
        let mut fresh = clone_strings(&step.freed_modules);
        already_free.append(&mut fresh);
        steps.push(step);
        proof {
            assert(steps@.take(before.len() as int) =~= before);
            assert(steps@.drop_last() =~= before);
            assert(views(already_free@) =~= before_free + views(step.freed_modules@));
            assert forall|j: int| 0 <= j < steps@.len() implies row_ok(#[trigger] steps@[j], *mg, back_edges@, views(locked_in_raw@), steps@.take(j), j) by {
                if j < before.len() {
                    assert(steps@[j] == before[j]);
                    assert(steps@.take(j) =~= before.take(j));
                }
            }
        }
        if k == n {
            done = true;
        } else {
            k = k + 1;
        }
    }
    steps
}

} // verus!
