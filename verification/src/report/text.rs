//! Human-readable text report.

use vstd::prelude::*;
use crate::analyze::{Analysis, CrateProposal, Layer, BackEdge, OccurrenceOut};
use crate::frontier::FrontierStep;
use crate::report::{nl, repeated, pad_left, repeat_char, pad_left_str, push_line, num};
use crate::report::mermaid::{mermaid_text, render as mermaid_render};
use crate::text::{views, join, join_seqs, decimal};
use crate::analyze::has_label;

verus! {

/// The first proposal named `name`, if any.
pub open spec fn first_named(props: Seq<CrateProposal>, name: Seq<char>) -> Option<int>
    decreases props.len(),
{
    if props.len() == 0 {
        None
    } else {
        match first_named(props.drop_last(), name) {
            Some(i) => Some(i),
            None => if props.last().crate_name@ == name { Some(props.len() - 1) } else { None },
        }
    }
}

/// The heading of a layer.
pub open spec fn layer_tag(level: usize) -> Seq<char> {
    if level == 0 { "layer 0 (foundation / leaf crates)"@ } else { "layer "@ + decimal(level as nat) }
}

/// The lines describing one proposal of a layer.
pub open spec fn crate_lines(p: CrateProposal, freed: Seq<Seq<char>>) -> Seq<char> {
    let cyc = if p.is_cycle { "  (CYCLE REMAINS)"@ } else { ""@ };
    let star = if p.modules@.len() == 1 && freed.contains(p.modules@[0]@) { " ★"@ } else { ""@ };
    nl("    • "@ + p.crate_name@ + star + "  —  "@ + decimal(p.loc as nat) + " LOC, "@ + decimal(p.file_count as nat) + " file(s)"@ + cyc)
        + nl("        modules: "@ + join_seqs(views(p.modules@), ", "@))
        + if p.depends_on@.len() > 0 { nl("        depends on: "@ + join_seqs(views(p.depends_on@), ", "@)) } else { Seq::empty() }
}

/// The lines of the crates listed in a layer (names without a proposal are
/// skipped).
pub open spec fn layer_crates_lines(names: Seq<Seq<char>>, props: Seq<CrateProposal>, freed: Seq<Seq<char>>) -> Seq<char>
    decreases names.len(),
{
    if names.len() == 0 {
        Seq::empty()
    } else {
        layer_crates_lines(names.drop_last(), props, freed) + match first_named(props, names.last()) {
            Some(i) => crate_lines(props[i], freed),
            None => Seq::empty(),
        }
    }
}

/// The blocks of every layer.
pub open spec fn layers_lines(layers: Seq<Layer>, props: Seq<CrateProposal>, freed: Seq<Seq<char>>) -> Seq<char>
    decreases layers.len(),
{
    if layers.len() == 0 {
        Seq::empty()
    } else {
        let l = layers.last();
        layers_lines(layers.drop_last(), props, freed) + nl("\n  ["@ + layer_tag(l.level) + "]"@)
            + layer_crates_lines(views(l.crates@), props, freed)
    }
}

/// The proposed-split section.
pub open spec fn split_text(a: Analysis) -> Seq<char> {
    nl("PROPOSED SPLIT — achievable after "@ + decimal(a.applied_cut_count as nat) + " cut(s) ("@
        + decimal(a.applied_refs_cut as nat) + " reference(s))"@)
        + (if a.applied_cut_count < a.summary.recommended_cut_count {
            nl("  (budget-limited: "@ + decimal(a.applied_cut_count as nat) + " of "@
                + decimal(a.summary.recommended_cut_count as nat) + " recommended cuts applied)"@)
        } else { Seq::empty() })
        + nl("  (foundation first; ★ = unlocked by the applied cuts)"@)
        + nl(repeated('-', 64))
        + layers_lines(a.layers@, a.proposals@, views(a.freed_modules@))
        + nl(""@)
}

/// One line per proposal that has dependencies.
pub open spec fn dag_lines(props: Seq<CrateProposal>) -> Seq<char>
    decreases props.len(),
{
    if props.len() == 0 {
        Seq::empty()
    } else {
        let p = props.last();
        dag_lines(props.drop_last()) + if p.depends_on@.len() > 0 {
            nl("  "@ + p.crate_name@ + " -> "@ + join_seqs(views(p.depends_on@), ", "@))
        } else {
            Seq::empty()
        }
    }
}

/// Some proposal has dependencies.
pub open spec fn any_deps(props: Seq<CrateProposal>) -> bool {
    exists|i: int| 0 <= i < props.len() && (#[trigger] props[i]).depends_on@.len() > 0
}

/// The crate dependency DAG section.
pub open spec fn dag_text(a: Analysis) -> Seq<char> {
    nl("CRATE DEPENDENCY DAG"@) + nl(repeated('-', 64)) + dag_lines(a.proposals@)
        + (if any_deps(a.proposals@) { Seq::empty() } else { nl("  (no inter-crate dependencies — all crates independent)"@) })
        + nl(""@)
}

/// One line per occurrence of a cut.
pub open spec fn occ_lines(occs: Seq<OccurrenceOut>) -> Seq<char>
    decreases occs.len(),
{
    if occs.len() == 0 {
        Seq::empty()
    } else {
        let o = occs.last();
        occ_lines(occs.drop_last()) + nl("        "@ + o.file@ + ":"@ + decimal(o.line as nat) + "  "@ + o.path@)
    }
}

/// The blocks of the first cuts, marking those below `applied` as applied.
pub open spec fn cut_blocks(cuts: Seq<BackEdge>, applied: usize) -> Seq<char>
    decreases cuts.len(),
{
    if cuts.len() == 0 {
        Seq::empty()
    } else {
        let i = cuts.len() - 1;
        let be = cuts.last();
        let mark = if i < applied { "[applied]"@ } else { "[skipped]"@ };
        cut_blocks(cuts.drop_last(), applied) + nl(""@)
            + nl("  ✂ "@ + mark + " cut  "@ + be.source_module@ + " -> "@ + be.target_module@ + "  ("@
                + decimal(be.occurrence_count as nat) + " occurrence(s)) [SCC #"@ + decimal(be.scc as nat) + "]"@)
            + occ_lines(be.occurrences@)
    }
}

/// The required-cuts section.
pub open spec fn cuts_text(a: Analysis) -> Seq<char> {
    nl("REQUIRED CUTS (the price of the proposed split)"@) + nl(repeated('-', 64))
        + (if a.back_edges@.len() == 0 {
            nl("  No multi-module cycles. The raw graph already splits as a DAG."@)
        } else {
            nl("  "@ + decimal(a.back_edges@.len()) + " recommended cut(s), cheapest first ("@
                + decimal(a.applied_cut_count as nat) + " applied for the proposal above):"@)
                + cut_blocks(a.back_edges@, a.applied_cut_count)
        })
        + nl(""@)
}

/// One row per frontier step.
pub open spec fn frontier_rows(steps: Seq<FrontierStep>) -> Seq<char>
    decreases steps.len(),
{
    if steps.len() == 0 {
        Seq::empty()
    } else {
        let st = steps.last();
        let freed = if st.freed_modules@.len() == 0 { "—"@ } else { join_seqs(views(st.freed_modules@), ", "@) };
        frontier_rows(steps.drop_last()) + nl("  "@ + pad_left(decimal(st.cuts_applied as nat), 5) + "  "@
            + pad_left(decimal(st.refs_cut as nat), 9) + "  "@ + pad_left(decimal(st.crate_count as nat), 7) + "  "@
            + pad_left(decimal(st.largest_loc as nat), 12) + "   "@ + freed)
    }
}

/// The effort/payoff frontier section.
pub open spec fn frontier_text(a: Analysis) -> Seq<char> {
    nl("EFFORT / PAYOFF FRONTIER"@) + nl(repeated('-', 64))
        + nl("  Each row = decomposition after the k cheapest cuts. Largest-crate LOC"@)
        + nl("  drops in STEPS at unlock points (a key edge removed), not smoothly."@)
        + nl(""@)
        + nl("  "@ + pad_left("cuts"@, 5) + "  "@ + pad_left("refs cut"@, 9) + "  "@ + pad_left("#crates"@, 7) + "  "@
            + pad_left("largest LOC"@, 12) + "   modules newly freed"@)
        + nl("  "@ + repeated('-', 60))
        + frontier_rows(a.frontier@)
        + nl(""@)
}

/// The summary section.
pub open spec fn summary_text(a: Analysis) -> Seq<char> {
    nl("SUMMARY"@) + nl(repeated('-', 64))
        + nl("  "@ + decimal(a.summary.module_count as nat) + " module(s) -> "@ + decimal(a.summary.proposed_crate_count as nat)
            + " proposed crate(s) (after "@ + decimal(a.applied_cut_count as nat) + " of "@
            + decimal(a.summary.recommended_cut_count as nat) + " recommended cuts)"@)
        + nl("  largest crate: "@ + decimal(a.summary.largest_crate_loc as nat) + " LOC"@)
        + nl("  cycles remaining (after applied cuts): "@ + decimal(a.summary.cycle_count as nat))
        + (if a.freed_modules@.len() > 0 {
            nl("  modules unlocked into their own crate: "@ + join_seqs(views(a.freed_modules@), ", "@))
        } else { Seq::empty() })
}

/// The full text report.
pub open spec fn report_text(a: Analysis, include_mermaid: bool) -> Seq<char> {
    nl("cargo-crate-split — analysis of `"@ + a.package_name@ + "` (granularity "@ + decimal(a.granularity as nat) + ")"@)
        + nl(repeated('=', 64)) + nl(""@)
        + split_text(a) + dag_text(a) + cuts_text(a) + frontier_text(a) + summary_text(a)
        + (if include_mermaid { nl(""@) + nl("MERMAID"@) + nl(repeated('-', 64)) + mermaid_text(a.proposals@) } else { Seq::empty() })
}

/// The first proposal named `name`.
fn find_first_named(props: &Vec<CrateProposal>, name: &String) -> (r: Option<usize>)
    ensures
        match r {
            Some(i) => first_named(props@, name@) == Some(i as int) && i < props@.len(),
            None => first_named(props@, name@) is None,
        },
{
    let mut i: usize = 0;
    while i < props.len()
        invariant
            i <= props@.len(),
            first_named(props@.take(i as int), name@) is None,
        decreases props@.len() - i,
    {
        proof {
            assert(props@.take(i + 1).drop_last() =~= props@.take(i as int));
        }
        if props[i].crate_name == *name {
            proof {
                assert(props@.take(i + 1).last() == props@[i as int]);
                assert(first_named(props@.take(i + 1), name@) == Some(i as int));
                lemma_first_named_prefix(props@, i + 1);
            }
            return Some(i);
        }
        i = i + 1;
    }
    proof {
        assert(props@.take(props@.len() as int) =~= props@);
    }
    None
}

proof fn lemma_first_named_prefix(props: Seq<CrateProposal>, k: int)
    requires
        0 <= k <= props.len(),
    ensures
        forall|name: Seq<char>| #[trigger] first_named(props.take(k), name) matches Some(i) ==> first_named(props, name) == Some(i),
    decreases props.len(),
{
    if k < props.len() {
        lemma_first_named_prefix(props.drop_last(), k);
        assert(props.drop_last().take(k) =~= props.take(k));
    } else {
        assert(props.take(k) =~= props);
    }
}

/// The lines of one proposal.
fn push_crate_lines(s: &mut String, p: &CrateProposal, freed: &Vec<String>)
    ensures
        final(s)@ == old(s)@ + crate_lines(*p, views(freed@)),
{
    let mut line = "    • ".to_owned();
    line.append(p.crate_name.as_str());
    if p.modules.len() == 1 && has_label(freed, &p.modules[0]) {
        line.append(" ★");
    } else {
        line.append("");
    }
    line.append("  —  ");
    line.append(num(p.loc).as_str());
    line.append(" LOC, ");
    line.append(num(p.file_count).as_str());
    line.append(" file(s)");
    if p.is_cycle {
        line.append("  (CYCLE REMAINS)");
    } else {
        line.append("");
    }
    push_line(s, line.as_str());
    let mut mods = "        modules: ".to_owned();
    mods.append(join(&p.modules, ", ").as_str());
    push_line(s, mods.as_str());
    if p.depends_on.len() > 0 {
        let mut deps = "        depends on: ".to_owned();
        deps.append(join(&p.depends_on, ", ").as_str());
        push_line(s, deps.as_str());
    }
}

/// The proposed-split section.
fn push_split(s: &mut String, a: &Analysis)
    ensures
        final(s)@ == old(s)@ + split_text(*a),
{
    let ghost start = s@;
    let mut line = "PROPOSED SPLIT — achievable after ".to_owned();
    line.append(num(a.applied_cut_count).as_str());
    line.append(" cut(s) (");
    line.append(num(a.applied_refs_cut).as_str());
    line.append(" reference(s))");
    push_line(s, line.as_str());
    if a.applied_cut_count < a.summary.recommended_cut_count {
        let mut b = "  (budget-limited: ".to_owned();
        b.append(num(a.applied_cut_count).as_str());
        b.append(" of ");
        b.append(num(a.summary.recommended_cut_count).as_str());
        b.append(" recommended cuts applied)");
        push_line(s, b.as_str());
    }
    push_line(s, "  (foundation first; ★ = unlocked by the applied cuts)");
    push_line(s, repeat_char('-', 64).as_str());
    let ghost head = s@;
    let layers = &a.layers;
    let props = &a.proposals;
    let mut i: usize = 0;
    while i < layers.len()
        invariant
            i <= layers@.len(),
            s@ == head + layers_lines(layers@.take(i as int), props@, views(a.freed_modules@)),
        decreases layers@.len() - i,
    {
        let l = &layers[i];
        proof {
            assert(layers@.take(i + 1).drop_last() =~= layers@.take(i as int));
            assert(layers@.take(i + 1).last() == *l);
        }
        let tag = if l.level == 0 {
            "layer 0 (foundation / leaf crates)".to_owned()
        } else {
            let mut t = "layer ".to_owned();
            t.append(num(l.level).as_str());
            t
        };
        let mut h = "\n  [".to_owned();
        h.append(tag.as_str());
        h.append("]");
        push_line(s, h.as_str());
        let ghost mid = s@;
        let crates = &l.crates;
        let mut c: usize = 0;
        while c < crates.len()
            invariant
                c <= crates@.len(),
                s@ == mid + layer_crates_lines(views(crates@).take(c as int), props@, views(a.freed_modules@)),
            decreases crates@.len() - c,
        {
            proof {
                assert(views(crates@).take(c + 1).drop_last() =~= views(crates@).take(c as int));
                assert(views(crates@).take(c + 1).last() == crates@[c as int]@);
            }
            match find_first_named(props, &crates[c]) {
                Some(k) => {
                    push_crate_lines(s, &props[k], &a.freed_modules);
                },
                None => {},
            }
            c = c + 1;
        }
        proof {
            assert(views(crates@).take(crates@.len() as int) =~= views(crates@));
        }
        i = i + 1;
    }
    proof {
        assert(layers@.take(layers@.len() as int) =~= layers@);
    }
    push_line(s, "");
}

/// The dependency DAG section.
fn push_dag(s: &mut String, a: &Analysis)
    ensures
        final(s)@ == old(s)@ + dag_text(*a),
{
    push_line(s, "CRATE DEPENDENCY DAG");
    push_line(s, repeat_char('-', 64).as_str());
    let ghost head = s@;
    let props = &a.proposals;
    let mut any_edge = false;
    let mut i: usize = 0;
    while i < props.len()
        invariant
            i <= props@.len(),
            s@ == head + dag_lines(props@.take(i as int)),
            any_edge == any_deps(props@.take(i as int)),
        decreases props@.len() - i,
    {
        let p = &props[i];
        proof {
            assert(props@.take(i + 1).drop_last() =~= props@.take(i as int));
            assert(props@.take(i + 1).last() == *p);
        }
        if p.depends_on.len() > 0 {
            any_edge = true;
            let mut line = "  ".to_owned();
            line.append(p.crate_name.as_str());
            line.append(" -> ");
            line.append(join(&p.depends_on, ", ").as_str());
            push_line(s, line.as_str());
            proof {
                assert(props@.take(i + 1)[i as int] == *p);
            }
        } else {
            proof {
                if any_deps(props@.take(i + 1)) {
                    let j = choose|j: int| 0 <= j < props@.take(i + 1).len() && (#[trigger] props@.take(i + 1)[j]).depends_on@.len() > 0;
                    assert(props@.take(i as int)[j] == props@.take(i + 1)[j]);
                }
                if any_deps(props@.take(i as int)) {
                    let j = choose|j: int| 0 <= j < props@.take(i as int).len() && (#[trigger] props@.take(i as int)[j]).depends_on@.len() > 0;
                    assert(props@.take(i + 1)[j] == props@.take(i as int)[j]);
                }
            }
        }
        proof {
            if any_deps(props@.take(i as int)) {
                let j = choose|j: int| 0 <= j < props@.take(i as int).len() && (#[trigger] props@.take(i as int)[j]).depends_on@.len() > 0;
                assert(props@.take(i + 1)[j] == props@.take(i as int)[j]);
            }
        }
        i = i + 1;
    }
    proof {
        assert(props@.take(props@.len() as int) =~= props@);
    }
    if !any_edge {
        push_line(s, "  (no inter-crate dependencies — all crates independent)");
    }
    push_line(s, "");
}

/// The required-cuts section.
fn push_cuts(s: &mut String, a: &Analysis)
    ensures
        final(s)@ == old(s)@ + cuts_text(*a),
{
    push_line(s, "REQUIRED CUTS (the price of the proposed split)");
    push_line(s, repeat_char('-', 64).as_str());
    let bes = &a.back_edges;
    if bes.len() == 0 {
        push_line(s, "  No multi-module cycles. The raw graph already splits as a DAG.");
    } else {
        let mut line = "  ".to_owned();
        line.append(num(bes.len()).as_str());
        line.append(" recommended cut(s), cheapest first (");
        line.append(num(a.applied_cut_count).as_str());
        line.append(" applied for the proposal above):");
        push_line(s, line.as_str());
        let ghost head = s@;
        let mut i: usize = 0;
        while i < bes.len()
            invariant
                i <= bes@.len(),
                s@ == head + cut_blocks(bes@.take(i as int), a.applied_cut_count),
            decreases bes@.len() - i,
        {
            let be = &bes[i];
            proof {
                assert(bes@.take(i + 1).drop_last() =~= bes@.take(i as int));
                assert(bes@.take(i + 1).last() == *be);
            }
            push_line(s, "");
            let mut l = "  ✂ ".to_owned();
            if i < a.applied_cut_count {
                l.append("[applied]");
            } else {
                l.append("[skipped]");
            }
            l.append(" cut  ");
            l.append(be.source_module.as_str());
            l.append(" -> ");
            l.append(be.target_module.as_str());
            l.append("  (");
            l.append(num(be.occurrence_count).as_str());
            l.append(" occurrence(s)) [SCC #");
            l.append(num(be.scc).as_str());
            l.append("]");
            push_line(s, l.as_str());
            let ghost mid = s@;
            let occs = &be.occurrences;
            let mut k: usize = 0;
            while k < occs.len()
                invariant
                    k <= occs@.len(),
                    s@ == mid + occ_lines(occs@.take(k as int)),
                decreases occs@.len() - k,
            {
                let o = &occs[k];
                proof {
                    assert(occs@.take(k + 1).drop_last() =~= occs@.take(k as int));
                    assert(occs@.take(k + 1).last() == *o);
                }
                let mut ol = "        ".to_owned();
                ol.append(o.file.as_str());
                ol.append(":");
                ol.append(num(o.line).as_str());
                ol.append("  ");
                ol.append(o.path.as_str());
                push_line(s, ol.as_str());
                k = k + 1;
            }
            proof {
                assert(occs@.take(occs@.len() as int) =~= occs@);
            }
            i = i + 1;
        }
        proof {
            assert(bes@.take(bes@.len() as int) =~= bes@);
        }
    }
    push_line(s, "");
}

/// The frontier section.
fn push_frontier(s: &mut String, a: &Analysis)
    ensures
        final(s)@ == old(s)@ + frontier_text(*a),
{
    push_line(s, "EFFORT / PAYOFF FRONTIER");
    push_line(s, repeat_char('-', 64).as_str());
    push_line(s, "  Each row = decomposition after the k cheapest cuts. Largest-crate LOC");
    push_line(s, "  drops in STEPS at unlock points (a key edge removed), not smoothly.");
    push_line(s, "");
    let mut h = "  ".to_owned();
    h.append(pad_left_str("cuts", 5).as_str());
    h.append("  ");
    h.append(pad_left_str("refs cut", 9).as_str());
    h.append("  ");
    h.append(pad_left_str("#crates", 7).as_str());
    h.append("  ");
    h.append(pad_left_str("largest LOC", 12).as_str());
    h.append("   modules newly freed");
    push_line(s, h.as_str());
    let mut rule = "  ".to_owned();
    rule.append(repeat_char('-', 60).as_str());
    push_line(s, rule.as_str());
    let ghost head = s@;
    let steps = &a.frontier;
    let mut i: usize = 0;
    while i < steps.len()
        invariant
            i <= steps@.len(),
            s@ == head + frontier_rows(steps@.take(i as int)),
        decreases steps@.len() - i,
    {
        let st = &steps[i];
        proof {
            assert(steps@.take(i + 1).drop_last() =~= steps@.take(i as int));
            assert(steps@.take(i + 1).last() == *st);
        }
        let freed = if st.freed_modules.len() == 0 { "—".to_owned() } else { join(&st.freed_modules, ", ") };
        let mut l = "  ".to_owned();
        l.append(pad_left_str(num(st.cuts_applied).as_str(), 5).as_str());
        l.append("  ");
        l.append(pad_left_str(num(st.refs_cut).as_str(), 9).as_str());
        l.append("  ");
        l.append(pad_left_str(num(st.crate_count).as_str(), 7).as_str());
        l.append("  ");
        l.append(pad_left_str(num(st.largest_loc).as_str(), 12).as_str());
        l.append("   ");
        l.append(freed.as_str());
        push_line(s, l.as_str());
        i = i + 1;
    }
    proof {
        assert(steps@.take(steps@.len() as int) =~= steps@);
    }
    push_line(s, "");
}

/// The summary section.
fn push_summary(s: &mut String, a: &Analysis)
    ensures
        final(s)@ == old(s)@ + summary_text(*a),
{
    push_line(s, "SUMMARY");
    push_line(s, repeat_char('-', 64).as_str());
    let mut l = "  ".to_owned();
    l.append(num(a.summary.module_count).as_str());
    l.append(" module(s) -> ");
    l.append(num(a.summary.proposed_crate_count).as_str());
    l.append(" proposed crate(s) (after ");
    l.append(num(a.applied_cut_count).as_str());
    l.append(" of ");
    l.append(num(a.summary.recommended_cut_count).as_str());
    l.append(" recommended cuts)");
    push_line(s, l.as_str());
    let mut l2 = "  largest crate: ".to_owned();
    l2.append(num(a.summary.largest_crate_loc).as_str());
    l2.append(" LOC");
    push_line(s, l2.as_str());
    let mut l3 = "  cycles remaining (after applied cuts): ".to_owned();
    l3.append(num(a.summary.cycle_count).as_str());
    push_line(s, l3.as_str());
    if a.freed_modules.len() > 0 {
        let mut l4 = "  modules unlocked into their own crate: ".to_owned();
        l4.append(join(&a.freed_modules, ", ").as_str());
        push_line(s, l4.as_str());
    }
}

/// Render the full text report. If `include_mermaid`, append a Mermaid block.
pub fn render(a: &Analysis, include_mermaid: bool) -> (r: String)
    ensures
        r@ == report_text(*a, include_mermaid),
{
    let mut s = String::new();
    let mut head = "cargo-crate-split — analysis of `".to_owned();
    head.append(a.package_name.as_str());
    head.append("` (granularity ");
    head.append(num(a.granularity).as_str());
    head.append(")");
    push_line(&mut s, head.as_str());
    push_line(&mut s, repeat_char('=', 64).as_str());
    push_line(&mut s, "");
    push_split(&mut s, a);
    push_dag(&mut s, a);
    push_cuts(&mut s, a);
    push_frontier(&mut s, a);
    push_summary(&mut s, a);
    if include_mermaid {
        push_line(&mut s, "");
        push_line(&mut s, "MERMAID");
        push_line(&mut s, repeat_char('-', 64).as_str());
        s.append(mermaid_render(a).as_str());
    }
    s
}

} // verus!
