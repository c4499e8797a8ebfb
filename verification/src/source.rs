//! Reading a source text's syntax with `syn`: the events the reference
//! collection needs, in visit order.

use vstd::prelude::*;
use syn::visit::Visit;
use crate::parse::{PathRef, SyntaxEvent, UseNode, EventView, Reference, collect_references, event_views, views_of, view_refs};
use crate::modpath::ModulePath;

verus! {

#[verifier::external_type_specification]
#[verifier::external_body]
pub struct ExSynItemMod(syn::ItemMod);

#[verifier::external_type_specification]
#[verifier::external_body]
pub struct ExSynItemUse(syn::ItemUse);

#[verifier::external_type_specification]
#[verifier::external_body]
pub struct ExSynPath(syn::Path);

#[verifier::external_type_specification]
#[verifier::external_body]
pub struct ExSynUseTree(syn::UseTree);

/// Collects the syntax events of one file while `syn` walks it.
pub struct EventVisitor {
    pub events: Vec<SyntaxEvent>,
}

/// A `syn` use tree as the library's `UseNode`, leaves with their line.
#[verifier::external_body]
fn convert_use(tree: &syn::UseTree) -> UseNode {
    match tree {
        syn::UseTree::Path(p) => UseNode::Path(p.ident.to_string(), Box::new(convert_use(&p.tree))),
        syn::UseTree::Name(n) => UseNode::Name(n.ident.to_string(), n.ident.span().start().line),
        syn::UseTree::Rename(r) => UseNode::Rename(r.ident.to_string(), r.ident.span().start().line),
        syn::UseTree::Glob(g) => UseNode::Glob(g.star_token.spans[0].start().line),
        syn::UseTree::Group(g) => UseNode::Group(g.items.iter().map(convert_use).collect()),
    }
}

impl<'ast> Visit<'ast> for EventVisitor {
    #[verifier::external_body]
    fn visit_item_mod(&mut self, node: &'ast syn::ItemMod) {
        let inline = node.content.is_some();
        self.events.push(SyntaxEvent::EnterMod(node.ident.to_string(), inline));
        syn::visit::visit_item_mod(self, node);
        self.events.push(SyntaxEvent::ExitMod(inline));
    }

    #[verifier::external_body]
    fn visit_item_use(&mut self, node: &'ast syn::ItemUse) {
        self.events.push(SyntaxEvent::Use(convert_use(&node.tree)));
        syn::visit::visit_item_use(self, node);
    }

    #[verifier::external_body]
    fn visit_path(&mut self, node: &'ast syn::Path) {
        self.events.push(SyntaxEvent::Path(PathRef {
            segments: node.segments.iter().map(|s| s.ident.to_string()).collect(),
            leading_colon: node.leading_colon.is_some(),
            line: node.segments.first().map(|s| s.ident.span().start().line).unwrap_or(0),
        }));
        syn::visit::visit_path(self, node);
    }
}

/// The syntax events `syn` reports for a source text, in visit order:
/// every `mod` item (entered and left, with whether it has an inline body),
/// every `use` tree and every path; `None` when `syn` does not parse the
/// text. It depends on the text alone.
pub uninterp spec fn source_events(text: Seq<char>) -> Option<Seq<EventView>>;

/// `syn::parse_file` on `text`, then `syn`'s walk of the file, collecting
/// the events: the result is `source_events(text@)`, by view. Nothing more
/// is claimed of what `syn` accepts or how it walks the tree.
#[verifier::external_body]
pub fn syntax_events(text: &str) -> (r: Option<Vec<SyntaxEvent>>)
    ensures
        match r {
            Some(events) => source_events(text@) == Some(event_views(events@)),
            None => source_events(text@) is None,
        },
{
    match syn::parse_file(text) {
        Ok(ast) => {
            let mut v = EventVisitor { events: Vec::new() };
            v.visit_file(&ast);
            Some(v.events)
        },
        Err(_) => None,
    }
}

/// All `crate::...` references in a source text, whose file is `file` and
/// whose module is `base_module`; `None` when the text does not parse.
pub fn references_in_text(text: &str, base_module: &ModulePath, file: &str) -> (r: Option<Vec<Reference>>)
    ensures
        match r {
            Some(refs) => source_events(text@) is Some
                && views_of(refs@) == view_refs(source_events(text@)->0, base_module@, file@),
            None => source_events(text@) is None,
        },
{
    match syntax_events(text) {
        Some(events) => Some(collect_references(&events, base_module, file)),
        None => None,
    }
}

} // verus!
