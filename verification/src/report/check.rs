//! The `--check` listing: one line per recommended cut.

use vstd::prelude::*;
use crate::analyze::{Analysis, BackEdge};
use crate::report::num;
use crate::text::{decimal, views};

verus! {

/// The line `--check` prints for a cut.
pub open spec fn violation_line(be: BackEdge) -> Seq<char> {
    "VIOLATION "@ + be.source_module@ + " -> "@ + be.target_module@ + " ("@
        + decimal(be.occurrence_count as nat) + " reference(s))"@
}

/// One line per recommended cut, in ranking order; empty when the crate
/// needs no cut.
pub fn violation_lines(a: &Analysis) -> (r: Vec<String>)
    ensures
        views(r@) == a.back_edges@.map_values(|be: BackEdge| violation_line(be)),
{
    let mut out: Vec<String> = Vec::new();
    let mut i: usize = 0;
    while i < a.back_edges.len()
        invariant
            i <= a.back_edges@.len(),
            views(out@) == a.back_edges@.take(i as int).map_values(|be: BackEdge| violation_line(be)),
        decreases a.back_edges@.len() - i,
    {
        let be = &a.back_edges[i];
        let mut s = "VIOLATION ".to_owned();
        s.append(be.source_module.as_str());
        s.append(" -> ");
        s.append(be.target_module.as_str());
        s.append(" (");
        let n = num(be.occurrence_count);
        s.append(n.as_str());
        s.append(" reference(s))");
        proof {
            reveal_strlit("VIOLATION ");
            reveal_strlit(" -> ");
            reveal_strlit(" (");
            reveal_strlit(" reference(s))");
            assert(s@ =~= violation_line(*be));
        }
        let ghost before = views(out@);
        out.push(s);
        proof {
            assert(a.back_edges@.take(i + 1).drop_last() =~= a.back_edges@.take(i as int));
            assert(views(out@) =~= before.push(violation_line(a.back_edges@[i as int])));
            assert(a.back_edges@.take(i + 1).map_values(|be: BackEdge| violation_line(be))
                =~= a.back_edges@.take(i as int).map_values(|be: BackEdge| violation_line(be)).push(violation_line(a.back_edges@[i as int])));
        }
        i = i + 1;
    }
    proof {
        assert(a.back_edges@.take(a.back_edges@.len() as int) =~= a.back_edges@);
    }
    out
}

} // verus!
