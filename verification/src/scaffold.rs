//! The files of an empty workspace skeleton implementing the proposed split.
//! Writing them out is left to the caller; no source code is moved.

use vstd::prelude::*;
use crate::analyze::{Analysis, CrateProposal};
use crate::report::{nl, push_line};
use crate::sort::{sort_strings, sorted_seqs};
use crate::text::views;

verus! {

/// A file of the skeleton: its path below the output directory, as
/// components, and its content.
#[derive(Clone, Debug)]
pub struct ScaffoldFile {
    pub path: Vec<String>,
    pub content: String,
}

/// The member entries of the workspace manifest.
pub open spec fn member_lines(members: Seq<Seq<char>>) -> Seq<char>
    decreases members.len(),
{
    if members.len() == 0 {
        Seq::empty()
    } else {
        member_lines(members.drop_last()) + nl("    \""@ + members.last() + "\","@)
    }
}

/// The workspace manifest: every crate as a member, sorted.
pub open spec fn workspace_manifest(props: Seq<CrateProposal>) -> Seq<char> {
    "[workspace]\nresolver = \"2\"\nmembers = [\n"@
        + member_lines(sorted_seqs(props.map_values(|p: CrateProposal| "crates/"@ + p.crate_name@)))
        + "]\n"@
}

/// The path dependencies of a crate manifest.
pub open spec fn dep_entries(deps: Seq<Seq<char>>) -> Seq<char>
    decreases deps.len(),
{
    if deps.len() == 0 {
        Seq::empty()
    } else {
        dep_entries(deps.drop_last()) + nl(deps.last() + " = { path = \"../"@ + deps.last() + "\" }"@)
    }
}

/// A crate's stub manifest, with path dependencies on its sibling crates.
pub open spec fn crate_manifest(p: CrateProposal) -> Seq<char> {
    "[package]\n"@ + nl("name = \""@ + p.crate_name@ + "\""@) + "version = \"0.1.0\"\n"@ + "edition = \"2021\"\n\n"@
        + "[dependencies]\n"@ + dep_entries(views(p.depends_on@))
}

/// The module list of a crate's stub `lib.rs`.
pub open spec fn module_notes(mods: Seq<Seq<char>>) -> Seq<char>
    decreases mods.len(),
{
    if mods.len() == 0 {
        Seq::empty()
    } else {
        module_notes(mods.drop_last()) + nl("//   - "@ + mods.last())
    }
}

/// A crate's stub `lib.rs`: a header comment listing the modules to move.
pub open spec fn crate_lib(p: CrateProposal) -> Seq<char> {
    nl("// crate `"@ + p.crate_name@ + "` — proposed by cargo-crate-split"@)
        + "// Move the following modules from the original crate here:\n"@
        + module_notes(views(p.modules@)) + "\n"@
}

fn push_members(s: &mut String, members: &Vec<String>)
    ensures
        final(s)@ == old(s)@ + member_lines(views(members@)),
{
    let ghost start = s@;
    let mut i: usize = 0;
    while i < members.len()
        invariant
            i <= members@.len(),
            s@ == start + member_lines(views(members@).take(i as int)),
        decreases members@.len() - i,
    {
        proof {
            assert(views(members@).take(i + 1).drop_last() =~= views(members@).take(i as int));
            assert(views(members@).take(i + 1).last() == members@[i as int]@);
        }
        let mut l = "    \"".to_owned();
        l.append(members[i].as_str());
        l.append("\",");
        push_line(s, l.as_str());
        i = i + 1;
    }
    proof {
        assert(views(members@).take(members@.len() as int) =~= views(members@));
    }
}

/// The workspace manifest text.
pub fn workspace_manifest_text(props: &Vec<CrateProposal>) -> (r: String)
    ensures
        r@ == workspace_manifest(props@),
{
    let mut members: Vec<String> = Vec::new();
    let mut i: usize = 0;
    while i < props.len()
        invariant
            i <= props@.len(),
            views(members@) == props@.take(i as int).map_values(|p: CrateProposal| "crates/"@ + p.crate_name@),
        decreases props@.len() - i,
    {
        let mut m = "crates/".to_owned();
        m.append(props[i].crate_name.as_str());
        let ghost before = views(members@);
        members.push(m);
        proof {
            assert(views(members@) =~= before.push("crates/"@ + props@[i as int].crate_name@));
            assert(props@.take(i + 1).map_values(|p: CrateProposal| "crates/"@ + p.crate_name@)
                =~= props@.take(i as int).map_values(|p: CrateProposal| "crates/"@ + p.crate_name@).push("crates/"@ + props@[i as int].crate_name@));
        }
        i = i + 1;
    }
    proof {
        assert(props@.take(props@.len() as int) =~= props@);
    }
    let members = sort_strings(members);
    let mut s = "[workspace]\nresolver = \"2\"\nmembers = [\n".to_owned();
    push_members(&mut s, &members);
    s.append("]\n");
    s
}

/// A crate's stub manifest text.
pub fn crate_manifest_text(p: &CrateProposal) -> (r: String)
    ensures
        r@ == crate_manifest(*p),
{
    let mut s = "[package]\n".to_owned();
    let mut n = "name = \"".to_owned();
    n.append(p.crate_name.as_str());
    n.append("\"");
    push_line(&mut s, n.as_str());
    s.append("version = \"0.1.0\"\n");
    s.append("edition = \"2021\"\n\n");
    s.append("[dependencies]\n");
    let ghost start = s@;
    let deps = &p.depends_on;
    let mut i: usize = 0;
    while i < deps.len()
        invariant
            i <= deps@.len(),
            s@ == start + dep_entries(views(deps@).take(i as int)),
        decreases deps@.len() - i,
    {
        proof {
            assert(views(deps@).take(i + 1).drop_last() =~= views(deps@).take(i as int));
            assert(views(deps@).take(i + 1).last() == deps@[i as int]@);
        }
        let mut l = deps[i].clone();
        l.append(" = { path = \"../");
        l.append(deps[i].as_str());
        l.append("\" }");
        push_line(&mut s, l.as_str());
        i = i + 1;
    }
    proof {
        assert(views(deps@).take(deps@.len() as int) =~= views(deps@));
    }
    s
}

/// A crate's stub `lib.rs` text.
pub fn crate_lib_text(p: &CrateProposal) -> (r: String)
    ensures
        r@ == crate_lib(*p),
{
    let mut s = String::new();
    let mut h = "// crate `".to_owned();
    h.append(p.crate_name.as_str());
    h.append("` — proposed by cargo-crate-split");
    push_line(&mut s, h.as_str());
    s.append("// Move the following modules from the original crate here:\n");
    let ghost start = s@;
    let mods = &p.modules;
    let mut i: usize = 0;
    while i < mods.len()
        invariant
            i <= mods@.len(),
            s@ == start + module_notes(views(mods@).take(i as int)),
        decreases mods@.len() - i,
    {
        proof {
            assert(views(mods@).take(i + 1).drop_last() =~= views(mods@).take(i as int));
            assert(views(mods@).take(i + 1).last() == mods@[i as int]@);
        }
        let mut l = "//   - ".to_owned();
        l.append(mods[i].as_str());
        push_line(&mut s, l.as_str());
        i = i + 1;
    }
    proof {
        assert(views(mods@).take(mods@.len() as int) =~= views(mods@));
    }
    s.append("\n");
    s
}

/// The skeleton's files, in creation order: the workspace manifest, then
/// for each proposal its manifest and its `src/lib.rs`.
pub fn scaffold_files(a: &Analysis) -> (r: Vec<ScaffoldFile>)
    ensures
        r@.len() == 1 + 2 * a.proposals@.len(),
        views(r@[0].path@) == seq!["Cargo.toml"@],
        r@[0].content@ == workspace_manifest(a.proposals@),
        forall|i: int| 0 <= i < a.proposals@.len() ==> {
            let p = a.proposals@[i];
            &&& views((#[trigger] r@[1 + 2 * i]).path@) == seq!["crates"@, p.crate_name@, "Cargo.toml"@]
            &&& r@[1 + 2 * i].content@ == crate_manifest(p)
            &&& views(r@[2 + 2 * i].path@) == seq!["crates"@, p.crate_name@, "src"@, "lib.rs"@]
            &&& r@[2 + 2 * i].content@ == crate_lib(p)
        },
{
    let mut out: Vec<ScaffoldFile> = Vec::new();
    let mut root_path: Vec<String> = Vec::new();
    root_path.push("Cargo.toml".to_owned());
    proof {
        assert(views(root_path@) =~= seq!["Cargo.toml"@]);
    }
    out.push(ScaffoldFile { path: root_path, content: workspace_manifest_text(&a.proposals) });
    let props = &a.proposals;
    let mut i: usize = 0;
    while i < props.len()
        invariant
            i <= props@.len(),
            props@ == a.proposals@,
            out@.len() == 1 + 2 * i,
            views(out@[0].path@) == seq!["Cargo.toml"@],
            out@[0].content@ == workspace_manifest(a.proposals@),
            forall|k: int| 0 <= k < i ==> {
                let p = a.proposals@[k];
                &&& views((#[trigger] out@[1 + 2 * k]).path@) == seq!["crates"@, p.crate_name@, "Cargo.toml"@]
                &&& out@[1 + 2 * k].content@ == crate_manifest(p)
                &&& views(out@[2 + 2 * k].path@) == seq!["crates"@, p.crate_name@, "src"@, "lib.rs"@]
                &&& out@[2 + 2 * k].content@ == crate_lib(p)
            },
        decreases props@.len() - i,
    {
        let p = &props[i];
        let mut mp: Vec<String> = Vec::new();
        mp.push("crates".to_owned());
        mp.push(p.crate_name.clone());
        mp.push("Cargo.toml".to_owned());
        let mut lp: Vec<String> = Vec::new();
        lp.push("crates".to_owned());
        lp.push(p.crate_name.clone());
        lp.push("src".to_owned());
        lp.push("lib.rs".to_owned());
        proof {
            assert(views(mp@) =~= seq!["crates"@, p.crate_name@, "Cargo.toml"@]);
            assert(views(lp@) =~= seq!["crates"@, p.crate_name@, "src"@, "lib.rs"@]);
        }
        let ghost before = out@;
        out.push(ScaffoldFile { path: mp, content: crate_manifest_text(p) });
        out.push(ScaffoldFile { path: lp, content: crate_lib_text(p) });
        proof {
            assert forall|k: int| 0 <= k < i + 1 implies {
                let p = a.proposals@[k];
                &&& views((#[trigger] out@[1 + 2 * k]).path@) == seq!["crates"@, p.crate_name@, "Cargo.toml"@]
                &&& out@[1 + 2 * k].content@ == crate_manifest(p)
                &&& views(out@[2 + 2 * k].path@) == seq!["crates"@, p.crate_name@, "src"@, "lib.rs"@]
                &&& out@[2 + 2 * k].content@ == crate_lib(p)
            } by {
                if k < i {
                    assert(out@[1 + 2 * k] == before[1 + 2 * k]);
                    assert(out@[2 + 2 * k] == before[2 + 2 * k]);
                }
            }
        }
        i = i + 1;
    }
    out
}

} // verus!
