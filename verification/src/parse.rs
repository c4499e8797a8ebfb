//! Extract `crate::A::...` references from a source file's syntax.
//!
//! The syntax tree itself is walked by `syn` (see `source`), which reports,
//! in visit order, what this module needs: entering and leaving `mod` items
//! (with whether they have an inline body), `use` trees, and paths. This
//! module turns that stream into references, tracking the enclosing module.

use vstd::prelude::*;
use crate::modpath::ModulePath;
use crate::text::{views, join, join_seqs, str_eq};
use crate::modpath::clone_strings;

verus! {

/// A `use` tree: `a::<tree>`, a name, a renamed name (`a as b`; the
/// original name counts), a glob, or a `{...}` group. Leaves carry their
/// 1-based line.
#[derive(Debug)]
pub enum UseNode {
    Path(String, Box<UseNode>),
    Name(String, usize),
    Rename(String, usize),
    Glob(usize),
    Group(Vec<UseNode>),
}

/// A path as written: its segment names, whether it has a leading `::`, and
/// the line of its first segment.
#[derive(Clone, Debug)]
pub struct PathRef {
    pub segments: Vec<String>,
    pub leading_colon: bool,
    pub line: usize,
}

/// What the syntax walk reports, in visit order.
#[derive(Debug)]
pub enum SyntaxEvent {
    /// Entering a `mod name`; the flag tells whether it has an inline
    /// `{ ... }` body (only those extend the module path).
    EnterMod(String, bool),
    /// Leaving a `mod` item; the flag tells whether it had an inline body.
    ExitMod(bool),
    /// A `use` item's tree.
    Use(UseNode),
    /// A path anywhere else.
    Path(PathRef),
}

/// A `use` tree as plain values.
pub enum UseView {
    Path(Seq<char>, Box<UseView>),
    Name(Seq<char>, usize),
    Rename(Seq<char>, usize),
    Glob(usize),
    Group(Seq<UseView>),
}

/// The plain-value view of a `use` tree.
pub open spec fn use_view(t: UseNode) -> UseView
    decreases t,
{
    match t {
        UseNode::Path(id, sub) => UseView::Path(id@, Box::new(use_view(*sub))),
        UseNode::Name(id, line) => UseView::Name(id@, line),
        UseNode::Rename(id, line) => UseView::Rename(id@, line),
        UseNode::Glob(line) => UseView::Glob(line),
        UseNode::Group(items) => UseView::Group(group_view(items@)),
    }
}

/// The views of the trees of a group.
pub open spec fn group_view(items: Seq<UseNode>) -> Seq<UseView>
    decreases items,
{
    if items.len() == 0 {
        Seq::empty()
    } else {
        group_view(items.drop_last()).push(use_view(items.last()))
    }
}

/// A syntax event as plain values.
pub enum EventView {
    EnterMod(Seq<char>, bool),
    ExitMod(bool),
    Use(UseView),
    Path(Seq<Seq<char>>, bool, usize),
}

impl View for SyntaxEvent {
    type V = EventView;

    open spec fn view(&self) -> EventView {
        match self {
            SyntaxEvent::EnterMod(name, inline) => EventView::EnterMod(name@, *inline),
            SyntaxEvent::ExitMod(inline) => EventView::ExitMod(*inline),
            SyntaxEvent::Use(t) => EventView::Use(use_view(*t)),
            SyntaxEvent::Path(p) => EventView::Path(views(p.segments@), p.leading_colon, p.line),
        }
    }
}

/// The views of a list of events.
pub open spec fn event_views(events: Seq<SyntaxEvent>) -> Seq<EventView> {
    events.map_values(|e: SyntaxEvent| e@)
}

/// A single observed reference to `crate::<target>::...` in a source file.
#[derive(Clone, Debug)]
pub struct Reference {
    /// The module that contains the reference (the enclosing module path,
    /// accounting for inline `mod x {}` nesting).
    pub source: ModulePath,
    /// The first segment after `crate::` — the referenced top-level module.
    pub target_top: String,
    /// File the reference appears in.
    pub file: String,
    /// 1-based line number.
    pub line: usize,
    /// The full path string as written, e.g. `crate::ai::assistant::run`.
    pub path: String,
}

/// A reference as plain values: source module, target, file, line, path.
pub type RefView = (Seq<Seq<char>>, Seq<char>, Seq<char>, usize, Seq<char>);

impl View for Reference {
    type V = RefView;

    open spec fn view(&self) -> RefView {
        (self.source@, self.target_top@, self.file@, self.line, self.path@)
    }
}

/// The fully expanded leaves of a `use` tree under `prefix`, in order, each
/// with its line.
pub open spec fn use_leaves(tree: UseNode, prefix: Seq<Seq<char>>) -> Seq<(Seq<Seq<char>>, usize)>
    decreases tree,
{
    match tree {
        UseNode::Path(id, sub) => use_leaves(*sub, prefix.push(id@)),
        UseNode::Name(id, line) => seq![(prefix.push(id@), line)],
        UseNode::Rename(id, line) => seq![(prefix.push(id@), line)],
        UseNode::Glob(line) => seq![(prefix.push("*"@), line)],
        UseNode::Group(items) => group_leaves(items@, prefix),
    }
}

/// The leaves of each tree of a group, in order.
pub open spec fn group_leaves(items: Seq<UseNode>, prefix: Seq<Seq<char>>) -> Seq<(Seq<Seq<char>>, usize)>
    decreases items,
{
    if items.len() == 0 {
        Seq::empty()
    } else {
        group_leaves(items.drop_last(), prefix) + use_leaves(items.last(), prefix)
    }
}

/// The references the leaves of a `use` tree make from module `source`:
/// those whose path starts with `crate` and names a module after it.
pub open spec fn leaf_refs(leaves: Seq<(Seq<Seq<char>>, usize)>, source: Seq<Seq<char>>, file: Seq<char>) -> Seq<RefView>
    decreases leaves.len(),
{
    if leaves.len() == 0 {
        Seq::empty()
    } else {
        let r = leaf_refs(leaves.drop_last(), source, file);
        let (segs, line) = leaves.last();
        if segs.len() >= 2 && segs[0] == "crate"@ {
            r.push((source, segs[1], file, line, join_seqs(segs, "::"@)))
        } else {
            r
        }
    }
}

/// The reference a path makes from module `source`, if it starts with
/// `crate` and names a module after it.
pub open spec fn path_refs(p: PathRef, source: Seq<Seq<char>>, file: Seq<char>) -> Seq<RefView> {
    let segs = views(p.segments@);
    if segs.len() >= 2 && segs[0] == "crate"@ {
        let text = join_seqs(segs, "::"@);
        seq![(source, segs[1], file, p.line, if p.leading_colon { "::"@ + text } else { text })]
    } else {
        Seq::empty()
    }
}

/// The stack of enclosing modules after the events (never empty: leaving
/// the outermost module is ignored).
pub open spec fn module_stack(events: Seq<SyntaxEvent>, base: Seq<Seq<char>>) -> Seq<Seq<Seq<char>>>
    decreases events.len(),
{
    if events.len() == 0 {
        seq![base]
    } else {
        let st = module_stack(events.drop_last(), base);
        match events.last() {
            SyntaxEvent::EnterMod(name, inline) => if inline { st.push(st.last().push(name@)) } else { st },
            SyntaxEvent::ExitMod(inline) => if inline && st.len() > 1 { st.drop_last() } else { st },
            _ => st,
        }
    }
}

/// All references the events report, in order.
pub open spec fn event_refs(events: Seq<SyntaxEvent>, base: Seq<Seq<char>>, file: Seq<char>) -> Seq<RefView>
    decreases events.len(),
{
    if events.len() == 0 {
        Seq::empty()
    } else {
        let r = event_refs(events.drop_last(), base, file);
        let top = module_stack(events.drop_last(), base).last();
        match events.last() {
            SyntaxEvent::Use(tree) => r + leaf_refs(use_leaves(tree, Seq::empty()), top, file),
            SyntaxEvent::Path(p) => r + path_refs(p, top, file),
            _ => r,
        }
    }
}

/// The expanded leaves of a viewed `use` tree under `prefix`.
pub open spec fn view_leaves(tree: UseView, prefix: Seq<Seq<char>>) -> Seq<(Seq<Seq<char>>, usize)>
    decreases tree,
{
    match tree {
        UseView::Path(id, sub) => view_leaves(*sub, prefix.push(id)),
        UseView::Name(id, line) => seq![(prefix.push(id), line)],
        UseView::Rename(id, line) => seq![(prefix.push(id), line)],
        UseView::Glob(line) => seq![(prefix.push("*"@), line)],
        UseView::Group(items) => view_group_leaves(items, prefix),
    }
}

/// The leaves of each viewed tree of a group, in order.
pub open spec fn view_group_leaves(items: Seq<UseView>, prefix: Seq<Seq<char>>) -> Seq<(Seq<Seq<char>>, usize)>
    decreases items,
{
    if items.len() == 0 {
        Seq::empty()
    } else {
        view_group_leaves(items.drop_last(), prefix) + view_leaves(items.last(), prefix)
    }
}

/// The reference a viewed path makes from module `source`, if it starts with
/// `crate` and names a module after it.
pub open spec fn view_path_refs(segs: Seq<Seq<char>>, leading_colon: bool, line: usize, source: Seq<Seq<char>>, file: Seq<char>) -> Seq<RefView> {
    if segs.len() >= 2 && segs[0] == "crate"@ {
        let text = join_seqs(segs, "::"@);
        seq![(source, segs[1], file, line, if leading_colon { "::"@ + text } else { text })]
    } else {
        Seq::empty()
    }
}

/// The stack of enclosing modules after the viewed events.
pub open spec fn view_stack(events: Seq<EventView>, base: Seq<Seq<char>>) -> Seq<Seq<Seq<char>>>
    decreases events.len(),
{
    if events.len() == 0 {
        seq![base]
    } else {
        let st = view_stack(events.drop_last(), base);
        match events.last() {
            EventView::EnterMod(name, inline) => if inline { st.push(st.last().push(name)) } else { st },
            EventView::ExitMod(inline) => if inline && st.len() > 1 { st.drop_last() } else { st },
            _ => st,
        }
    }
}

/// All references the viewed events report, in order: each `use` leaf and
/// each path that starts with `crate::<module>`, from the innermost
/// enclosing inline module.
pub open spec fn view_refs(events: Seq<EventView>, base: Seq<Seq<char>>, file: Seq<char>) -> Seq<RefView>
    decreases events.len(),
{
    if events.len() == 0 {
        Seq::empty()
    } else {
        let r = view_refs(events.drop_last(), base, file);
        let top = view_stack(events.drop_last(), base).last();
        match events.last() {
            EventView::Use(tree) => r + leaf_refs(view_leaves(tree, Seq::empty()), top, file),
            EventView::Path(segs, colon, line) => r + view_path_refs(segs, colon, line, top, file),
            _ => r,
        }
    }
}

proof fn lemma_leaves_view(t: UseNode, prefix: Seq<Seq<char>>)
    ensures
        use_leaves(t, prefix) == view_leaves(use_view(t), prefix),
    decreases t,
{
    match t {
        UseNode::Path(id, sub) => {
            lemma_leaves_view(*sub, prefix.push(id@));
        },
        UseNode::Group(items) => {
            lemma_group_leaves_view(items@, prefix);
        },
        _ => {},
    }
}

proof fn lemma_group_leaves_view(items: Seq<UseNode>, prefix: Seq<Seq<char>>)
    ensures
        group_leaves(items, prefix) == view_group_leaves(group_view(items), prefix),
    decreases items,
{
    if items.len() > 0 {
        lemma_group_leaves_view(items.drop_last(), prefix);
        lemma_leaves_view(items.last(), prefix);
        let g = group_view(items);
        assert(g.drop_last() =~= group_view(items.drop_last()));
        assert(g.last() == use_view(items.last()));
    }
}

/// The references of events and of their views agree.
proof fn lemma_refs_view(events: Seq<SyntaxEvent>, base: Seq<Seq<char>>, file: Seq<char>)
    ensures
        module_stack(events, base) == view_stack(event_views(events), base),
        event_refs(events, base, file) == view_refs(event_views(events), base, file),
    decreases events.len(),
{
    if events.len() > 0 {
        let d = events.drop_last();
        lemma_refs_view(d, base, file);
        let v = event_views(events);
        assert(v.drop_last() =~= event_views(d));
        assert(v.last() == events.last()@);
        match events.last() {
            SyntaxEvent::Use(tree) => {
                lemma_leaves_view(tree, Seq::empty());
            },
            _ => {},
        }
    }
}

proof fn lemma_stack_nonempty(events: Seq<SyntaxEvent>, base: Seq<Seq<char>>)
    ensures
        module_stack(events, base).len() >= 1,
    decreases events.len(),
{
    if events.len() > 0 {
        lemma_stack_nonempty(events.drop_last(), base);
    }
}

proof fn lemma_leaf_refs_append(a: Seq<(Seq<Seq<char>>, usize)>, b: Seq<(Seq<Seq<char>>, usize)>, source: Seq<Seq<char>>, file: Seq<char>)
    ensures
        leaf_refs(a + b, source, file) == leaf_refs(a, source, file) + leaf_refs(b, source, file),
    decreases b.len(),
{
    if b.len() == 0 {
        assert(a + b =~= a);
    } else {
        lemma_leaf_refs_append(a, b.drop_last(), source, file);
        assert((a + b).drop_last() =~= a + b.drop_last());
    }
}

/// Emit the reference a fully expanded `use` leaf makes, if any.
fn emit_use(segments: &Vec<String>, line: usize, source: &ModulePath, file: &str, out: &mut Vec<Reference>)
    ensures
        views_of(final(out)@) == views_of(old(out)@) + leaf_refs(seq![(views(segments@), line)], source@, file@),
{
    let ghost leaf = seq![(views(segments@), line)];
    proof {
        reveal_strlit("crate");
        assert(leaf.drop_last() =~= Seq::<(Seq<Seq<char>>, usize)>::empty());
        assert(leaf.last() == (views(segments@), line));
        assert(leaf_refs(Seq::<(Seq<Seq<char>>, usize)>::empty(), source@, file@) =~= Seq::<RefView>::empty());
        assert(leaf_refs(leaf, source@, file@) == {
            let segs = views(segments@);
            if segs.len() >= 2 && segs[0] == "crate"@ {
                seq![(source@, segs[1], file@, line, join_seqs(segs, "::"@))]
            } else {
                Seq::<RefView>::empty()
            }
        }) by {
            assert(leaf_refs(leaf.drop_last(), source@, file@) =~= Seq::<RefView>::empty());
            if views(segments@).len() >= 2 && views(segments@)[0] == "crate"@ {
                assert(Seq::<RefView>::empty().push((source@, views(segments@)[1], file@, line, join_seqs(views(segments@), "::"@)))
                    =~= seq![(source@, views(segments@)[1], file@, line, join_seqs(views(segments@), "::"@))]);
            }
        }
        assert(views(segments@).len() == segments@.len());
        if segments@.len() > 1 {
            assert(views(segments@)[0] == segments@[0]@);
            assert(views(segments@)[1] == segments@[1]@);
        }
    }
    if segments.len() < 2 || !str_eq(&segments[0], "crate") {
        proof {
            assert(views_of(out@) =~= views_of(out@) + Seq::<RefView>::empty());
        }
        return;
    }
    let full = join(segments, "::");
    let ghost before = views_of(out@);
    out.push(Reference {
        source: source.clone_path(),
        target_top: segments[1].clone(),
        file: file.to_owned(),
        line,
        path: full,
    });
    proof {
        assert(views_of(out@) =~= before.push((source@, segments@[1]@, file@, line, join_seqs(views(segments@), "::"@))));
    }
}

/// The views of a list of references.
pub open spec fn views_of(refs: Seq<Reference>) -> Seq<RefView> {
    refs.map_values(|r: Reference| r@)
}

/// Record the `crate::<seg>` references of a `use` tree under `prefix`,
/// expanding groups.
fn record_use_tree(tree: &UseNode, prefix: &Vec<String>, source: &ModulePath, file: &str, out: &mut Vec<Reference>)
    ensures
        views_of(final(out)@) == views_of(old(out)@) + leaf_refs(use_leaves(*tree, views(prefix@)), source@, file@),
    decreases tree,
{
    match tree {
        UseNode::Path(id, sub) => {
            let mut p = clone_strings(prefix);
            p.push(id.clone());
            proof {
                assert(views(p@) =~= views(prefix@).push(id@));
            }
            record_use_tree(sub, &p, source, file, out);
        },
        UseNode::Name(id, line) => {
            let mut p = clone_strings(prefix);
            p.push(id.clone());
            proof {
                assert(views(p@) =~= views(prefix@).push(id@));
            }
            emit_use(&p, *line, source, file, out);
        },
        UseNode::Rename(id, line) => {
            let mut p = clone_strings(prefix);
            p.push(id.clone());
            proof {
                assert(views(p@) =~= views(prefix@).push(id@));
            }
            emit_use(&p, *line, source, file, out);
        },
        UseNode::Glob(line) => {
            let mut p = clone_strings(prefix);
            p.push("*".to_owned());
            proof {
                assert(views(p@) =~= views(prefix@).push("*"@));
            }
            emit_use(&p, *line, source, file, out);
        },
        UseNode::Group(items) => {
            let ghost start = views_of(out@);
            let mut i: usize = 0;
            while i < items.len()
                invariant
                    *tree == UseNode::Group(*items),
                    i <= items@.len(),
                    views_of(out@) == start + leaf_refs(group_leaves(items@.take(i as int), views(prefix@)), source@, file@),
                decreases items@.len() - i,
            {
                let ghost mid = views_of(out@);
                proof {
                    vstd::std_specs::vec::axiom_vec_index_decreases(*items, i as int);
                    assert(decreases_to!(*tree => (*tree)->Group_0));
                    assert((*tree)->Group_0 == *items);
                    assert(decreases_to!(*tree => items[i as int]));
                }
                record_use_tree(&items[i], prefix, source, file, out);
                proof {
                    let t = items@.take(i + 1);
                    assert(t.drop_last() =~= items@.take(i as int));
                    assert(t.last() == items@[i as int]);
                    lemma_leaf_refs_append(group_leaves(items@.take(i as int), views(prefix@)), use_leaves(items@[i as int], views(prefix@)), source@, file@);
                }
                i = i + 1;
            }
            proof {
                assert(items@.take(items@.len() as int) =~= items@);
            }
        },
    }
}

/// Record the reference a path makes, if it begins with `crate::<seg>`.
fn record_path(p: &PathRef, source: &ModulePath, file: &str, out: &mut Vec<Reference>)
    ensures
        views_of(final(out)@) == views_of(old(out)@) + path_refs(*p, source@, file@),
{
    proof {
        reveal_strlit("crate");
    }
    if p.segments.len() < 2 || !str_eq(&p.segments[0], "crate") {
        proof {
            assert(views_of(out@) =~= views_of(out@) + Seq::<RefView>::empty());
        }
        return;
    }
    let joined = join(&p.segments, "::");
    let full = if p.leading_colon {
        let mut s = "::".to_owned();
        s.append(joined.as_str());
        s
    } else {
        joined
    };
    let ghost before = views_of(out@);
    out.push(Reference {
        source: source.clone_path(),
        target_top: p.segments[1].clone(),
        file: file.to_owned(),
        line: p.line,
        path: full,
    });
    proof {
        assert(views_of(out@) =~= before + path_refs(*p, source@, file@));
    }
}

/// All `crate::...` references the syntax events of one file report.
///
/// `base_module` is the module path of the file itself (from discovery).
/// Inline `mod x { ... }` blocks extend the enclosing module path.
pub fn collect_references(events: &Vec<SyntaxEvent>, base_module: &ModulePath, file: &str) -> (r: Vec<Reference>)
    ensures
        views_of(r@) == event_refs(events@, base_module@, file@),
        views_of(r@) == view_refs(event_views(events@), base_module@, file@),
{
    let mut stack: Vec<ModulePath> = Vec::new();
    stack.push(base_module.clone_path());
    let mut refs: Vec<Reference> = Vec::new();
    let mut i: usize = 0;
    while i < events.len()
        invariant
            i <= events@.len(),
            stack@.len() >= 1,
            stack@.map_values(|m: ModulePath| m@) == module_stack(events@.take(i as int), base_module@),
            views_of(refs@) == event_refs(events@.take(i as int), base_module@, file@),
        decreases events@.len() - i,
    {
        let ghost t = events@.take(i + 1);
        proof {
            assert(t.drop_last() =~= events@.take(i as int));
            assert(t.last() == events@[i as int]);
            lemma_stack_nonempty(events@.take(i as int), base_module@);
        }
        let top = &stack[stack.len() - 1];
        match &events[i] {
            SyntaxEvent::EnterMod(name, inline) => {
                if *inline {
                    let child = top.child(name.as_str());
                    let ghost before = stack@.map_values(|m: ModulePath| m@);
                    stack.push(child);
                    proof {
                        assert(stack@.map_values(|m: ModulePath| m@) =~= before.push(before.last().push(name@)));
                    }
                }
            },
            SyntaxEvent::ExitMod(inline) => {
                if *inline && stack.len() > 1 {
                    let ghost before = stack@.map_values(|m: ModulePath| m@);
                    stack.pop();
                    proof {
                        assert(stack@.map_values(|m: ModulePath| m@) =~= before.drop_last());
                    }
                }
            },
            SyntaxEvent::Use(tree) => {
                let empty: Vec<String> = Vec::new();
                proof {
                    assert(views(empty@) =~= Seq::<Seq<char>>::empty());
                }
                record_use_tree(tree, &empty, top, file, &mut refs);
            },
            SyntaxEvent::Path(p) => {
                record_path(p, top, file, &mut refs);
            },
        }
        i = i + 1;
    }
    proof {
        assert(events@.take(events@.len() as int) =~= events@);
        lemma_refs_view(events@, base_module@, file@);
    }
    refs
}

} // verus!
