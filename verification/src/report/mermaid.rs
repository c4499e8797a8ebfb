//! Mermaid `graph TD` renderer for the crate dependency DAG.

use vstd::prelude::*;
use crate::analyze::{Analysis, CrateProposal};
use crate::report::{nl, push_line, num};
use crate::text::{views, decimal};

verus! {

/// The last proposal named `name`, if any (the id a name maps to).
pub open spec fn last_named(props: Seq<CrateProposal>, name: Seq<char>) -> Option<int>
    decreases props.len(),
{
    if props.len() == 0 {
        None
    } else if props.last().crate_name@ == name {
        Some(props.len() - 1)
    } else {
        last_named(props.drop_last(), name)
    }
}

/// The node id of a proposal index.
pub open spec fn node_id(i: int) -> Seq<char> {
    "n"@ + decimal(i as nat)
}

/// The node declarations, one line per proposal.
pub open spec fn node_lines(props: Seq<CrateProposal>, all: Seq<CrateProposal>) -> Seq<char>
    decreases props.len(),
{
    if props.len() == 0 {
        Seq::empty()
    } else {
        let p = props.last();
        node_lines(props.drop_last(), all)
            + nl("    "@ + node_id(last_named(all, p.crate_name@)->0) + "[\""@ + p.crate_name@ + "<br/>"@ + decimal(p.loc as nat) + " LOC\"]"@)
    }
}

/// The edge lines from `from` to each dependency that names a proposal.
pub open spec fn dep_lines(from: Seq<char>, deps: Seq<Seq<char>>, all: Seq<CrateProposal>) -> Seq<char>
    decreases deps.len(),
{
    if deps.len() == 0 {
        Seq::empty()
    } else {
        dep_lines(from, deps.drop_last(), all) + match last_named(all, deps.last()) {
            Some(t) => nl("    "@ + from + " --> "@ + node_id(t)),
            None => Seq::empty(),
        }
    }
}

/// The edge lines of every proposal.
pub open spec fn edge_lines(props: Seq<CrateProposal>, all: Seq<CrateProposal>) -> Seq<char>
    decreases props.len(),
{
    if props.len() == 0 {
        Seq::empty()
    } else {
        let p = props.last();
        edge_lines(props.drop_last(), all) + dep_lines(node_id(last_named(all, p.crate_name@)->0), views(p.depends_on@), all)
    }
}

/// The Mermaid block for a list of proposals.
pub open spec fn mermaid_text(props: Seq<CrateProposal>) -> Seq<char> {
    nl("graph TD"@) + node_lines(props, props) + edge_lines(props, props)
}

proof fn lemma_last_named_prefix(props: Seq<CrateProposal>, k: int)
    requires
        0 <= k < props.len(),
    ensures
        last_named(props, props[k].crate_name@) matches Some(j) && k <= j < props.len(),
    decreases props.len(),
{
    if k < props.len() - 1 && props.last().crate_name@ != props[k].crate_name@ {
        lemma_last_named_prefix(props.drop_last(), k);
    }
}

/// The id of the last proposal named `name`.
fn find_last_named(props: &Vec<CrateProposal>, name: &String) -> (r: Option<usize>)
    ensures
        match r {
            Some(i) => last_named(props@, name@) == Some(i as int),
            None => last_named(props@, name@) is None,
        },
{
    let mut i: usize = props.len();
    proof {
        assert(props@.take(props@.len() as int) =~= props@);
    }
    while i > 0
        invariant
            i <= props@.len(),
            last_named(props@, name@) == last_named(props@.take(i as int), name@),
        decreases i,
    {
        proof {
            assert(props@.take(i as int).drop_last() =~= props@.take(i - 1));
            assert(props@.take(i as int).last() == props@[i - 1]);
        }
        if props[i - 1].crate_name == *name {
            return Some(i - 1);
        }
        i = i - 1;
    }
    None
}

/// `n<i>` for proposal index `i`.
fn id_text(i: usize) -> (r: String)
    ensures
        r@ == node_id(i as int),
{
    let mut s = "n".to_owned();
    s.append(num(i).as_str());
    s
}

/// Render a Mermaid `graph TD` block (no surrounding fences).
pub fn render(a: &Analysis) -> (r: String)
    ensures
        r@ == mermaid_text(a.proposals@),
{
    let props = &a.proposals;
    let mut s = String::new();
    push_line(&mut s, "graph TD");
    let mut i: usize = 0;
    proof {
        assert(props@.take(0) =~= Seq::<CrateProposal>::empty());
        assert(s@ == nl("graph TD"@) + node_lines(props@.take(0), props@));
    }
    while i < props.len()
        invariant
            i <= props@.len(),
            s@ == nl("graph TD"@) + node_lines(props@.take(i as int), props@),
        decreases props@.len() - i,
    {
        let p = &props[i];
        proof {
            lemma_last_named_prefix(props@, i as int);
            assert(props@.take(i + 1).drop_last() =~= props@.take(i as int));
            assert(props@.take(i + 1).last() == *p);
        }
        let id = match find_last_named(props, &p.crate_name) {
            Some(j) => id_text(j),
            None => String::new(),
        };
        let mut line = "    ".to_owned();
        line.append(id.as_str());
        line.append("[\"");
        line.append(p.crate_name.as_str());
        line.append("<br/>");
        line.append(num(p.loc).as_str());
        line.append(" LOC\"]");
        push_line(&mut s, line.as_str());
        i = i + 1;
    }
    proof {
        assert(props@.take(props@.len() as int) =~= props@);
    }
    let ghost nodes_part = s@;
    let mut i: usize = 0;
    while i < props.len()
        invariant
            i <= props@.len(),
            s@ == nodes_part + edge_lines(props@.take(i as int), props@),
        decreases props@.len() - i,
    {
        let p = &props[i];
        proof {
            lemma_last_named_prefix(props@, i as int);
            assert(props@.take(i + 1).drop_last() =~= props@.take(i as int));
            assert(props@.take(i + 1).last() == *p);
        }
        let from = match find_last_named(props, &p.crate_name) {
            Some(j) => id_text(j),
            None => String::new(),
        };
        let ghost before = s@;
        let deps = &p.depends_on;
        let mut d: usize = 0;
        while d < deps.len()
            invariant
                d <= deps@.len(),
                s@ == before + dep_lines(from@, views(deps@).take(d as int), props@),
            decreases deps@.len() - d,
        {
            proof {
                assert(views(deps@).take(d + 1).drop_last() =~= views(deps@).take(d as int));
                assert(views(deps@).take(d + 1).last() == deps@[d as int]@);
            }
            match find_last_named(props, &deps[d]) {
                Some(t) => {
                    let mut line = "    ".to_owned();
                    line.append(from.as_str());
                    line.append(" --> ");
                    line.append(id_text(t).as_str());
                    push_line(&mut s, line.as_str());
                },
                None => {},
            }
            d = d + 1;
        }
        proof {
            assert(views(deps@).take(deps@.len() as int) =~= views(deps@));
        }
        i = i + 1;
    }
    proof {
        assert(props@.take(props@.len() as int) =~= props@);
    }
    s
}

} // verus!
