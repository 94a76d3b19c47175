//! Simplified pages: the main part of a document and the elements of a page.

use vstd::prelude::*;
use vstd::string::*;

use crate::dom::Dom;
use crate::node::{NodeId, NodeType};
use crate::stylesheet::{Color, ComplexSelector, Selector};

verus! {

/// Errors of simplifying a page.
#[derive(Debug, Clone, Copy, PartialEq, Eq, Structural)]
pub enum SimplifyError {
    /// The page has neither a `main` nor a `body` element.
    NoMainSectionFound,
}

/// Element `m` lies below `from` (through elements) and has tag `tag`.
pub open spec fn tag_below(dom: &Dom, from: int, tag: Seq<char>, m: int) -> bool {
    &&& dom.valid(m)
    &&& dom.is_elem_desc(m, from)
    &&& dom.nodes[m].node_type matches NodeType::Element(e) && e.tag@ == tag
}

impl Dom {
    /// An element below `from` with the given tag, if there is one.
    fn find_with_tag(&self, from: NodeId, tag: &str) -> (r: Option<NodeId>)
        requires
            self.wf(),
            self.valid(from as int),
        ensures
            match r {
                Some(m) => tag_below(self, from as int, tag@, m as int),
                None => forall|m: int| !tag_below(self, from as int, tag@, m),
            },
    {
        let simple = Selector { id: None, tag_name: Some(String::from_str(tag)), classes: Vec::new() };
        let mut inner: Vec<Selector> = Vec::new();
        inner.push(simple);
        let selector = ComplexSelector { inner, combinators: Vec::new() };
        let found = match self.select(from, &selector) {
            Ok(v) => v,
            Err(_) => {
                return None;
            },
        };
        proof {
            assert forall|m: int| tag_below(self, from as int, tag@, m) <==> self.selects(from as int, selector, m) by {
            }
        }
        if found.len() > 0 {
            proof {
                assert(found@.contains(found@[0]));
            }
            Some(found[0])
        } else {
            proof {
                assert forall|m: int| !tag_below(self, from as int, tag@, m) by {
                    if tag_below(self, from as int, tag@, m) {
                        assert(found@.contains(m as NodeId));
                    }
                }
            }
            None
        }
    }
}

/// The main part of a page below `tree`: a `main` element if there is one,
/// else a `body` element.
pub fn remove_fluff(dom: &Dom, tree: NodeId) -> (r: Result<NodeId, SimplifyError>)
    requires
        dom.wf(),
        dom.valid(tree as int),
    ensures
        match r {
            Ok(m) => tag_below(dom, tree as int, "main"@, m as int) || ((forall|x: int|
                !tag_below(dom, tree as int, "main"@, x)) && tag_below(dom, tree as int, "body"@, m as int)),
            Err(e) => e == SimplifyError::NoMainSectionFound && forall|x: int|
                !tag_below(dom, tree as int, "main"@, x) && !tag_below(dom, tree as int, "body"@, x),
        },
{
    if let Some(m) = dom.find_with_tag(tree, "main") {
        return Ok(m);
    }
    if let Some(b) = dom.find_with_tag(tree, "body") {
        return Ok(b);
    }
    Err(SimplifyError::NoMainSectionFound)
}

/// A heading of a simplified page.
pub struct Heading {
    pub level: u8,
    pub content: Paragraph,
}

pub struct Paragraph {
    pub content: Vec<Span>,
}

/// A run of text with one style.
pub struct Span {
    pub color: Color,
    pub bold: bool,
    pub italic: bool,
    pub content: String,
}

pub struct Link {
    pub href: String,
    pub content: Vec<Span>,
}

pub struct Image {}

pub struct List {
    pub kind: ListKind,
    pub items: Vec<ListItem>,
}

pub enum ListKind {
    Unordered,
}

pub struct ListItem {
    pub content: Paragraph,
}

pub enum TbElementKind {
    Heading(Heading),
    Paragraph(Paragraph),
    Span(Span),
    Link(Link),
    Image(Image),
    List(List),
}

/// A simplified page: its elements, each with the node it comes from.
pub struct Page {
    pub content: Vec<TbElement>,
}

pub struct TbElement {
    pub kind: TbElementKind,
    pub real_node: NodeId,
}

} // verus!
