//! A document as a tree of nodes held by index, and the operations that build it.

use vstd::prelude::*;

use crate::error::{Error, UnreachableError};
use crate::node::{attr_of, AttrMap, ElementData, Node, NodeId, NodeType};
use crate::stylesheet::{PropertyValue, Stylesheet};

verus! {

/// A document: its nodes, addressed by index, and its stylesheets in order of
/// registration. Node `root` (index 0) is the synthetic root element.
///
/// `rank` gives every node a number below `rank_bound` that is larger than
/// its parent's: it witnesses that following parents always ends.
pub struct Dom {
    pub doctype: String,
    pub root: NodeId,
    pub nodes: Vec<Node>,
    pub stylesheets: Vec<Stylesheet>,
    pub rank: Ghost<Seq<nat>>,
    pub rank_bound: Ghost<nat>,
}

impl Dom {
    pub open spec fn valid(&self, i: int) -> bool {
        0 <= i < self.nodes.len()
    }

    pub open spec fn parent_of(&self, i: int) -> Option<NodeId> {
        self.nodes[i].parent
    }

    pub open spec fn children_of(&self, i: int) -> Seq<NodeId> {
        self.nodes[i].children@
    }

    pub open spec fn is_element(&self, i: int) -> bool {
        self.nodes[i].node_type is Element
    }

    pub open spec fn rank_of(&self, i: int) -> nat {
        self.rank@[i]
    }

    /// `p` is a node ranked below `i`: the step from `i` to its parent `p`
    /// goes down in rank.
    pub open spec fn ranked_below(&self, p: int, i: int) -> bool {
        0 <= p < self.nodes.len() && self.rank_of(p) < self.rank_of(i)
    }

    /// The links of node `i` agree with the rest of the tree: its parent
    /// ranks below it and lists it, and it lists each of its children
    /// exactly once.
    pub open spec fn node_wf(&self, i: int) -> bool {
        &&& self.rank_of(i) < self.rank_bound@
        &&& (self.parent_of(i) matches Some(p) ==> self.ranked_below(p as int, i)
            && self.children_of(p as int).contains(i as NodeId))
        &&& forall|k: int|
            0 <= k < self.children_of(i).len() ==> {
                let c = #[trigger] self.children_of(i)[k];
                &&& c < self.nodes.len()
                &&& self.parent_of(c as int) == Some(i as NodeId)
            }
        &&& self.children_of(i).no_duplicates()
    }

    pub open spec fn wf(&self) -> bool {
        &&& self.root == 0
        &&& self.nodes.len() > 0
        &&& self.is_element(0)
        &&& self.parent_of(0) is None
        &&& self.rank@.len() == self.nodes.len()
        &&& forall|i: int| 0 <= i < self.nodes.len() ==> #[trigger] self.node_wf(i)
    }

    /// `a` is `x` or one of its ancestors.
    pub open spec fn is_ancestor_or_self(&self, a: int, x: int) -> bool
        decreases self.rank_of(x),
    {
        if !(0 <= x < self.nodes.len()) {
            false
        } else if x == a {
            true
        } else {
            match self.parent_of(x) {
                Some(p) => if self.ranked_below(p as int, x) {
                    self.is_ancestor_or_self(a, p as int)
                } else {
                    false
                },
                None => false,
            }
        }
    }

    /// Tree and stylesheets are the same in both documents (applied styles may differ).
    pub open spec fn same_tree(&self, o: &Dom) -> bool {
        &&& self.doctype == o.doctype
        &&& self.root == o.root
        &&& self.stylesheets == o.stylesheets
        &&& self.rank == o.rank
        &&& self.rank_bound == o.rank_bound
        &&& self.nodes.len() == o.nodes.len()
        &&& forall|i: int|
            0 <= i < self.nodes.len() ==> {
                &&& (#[trigger] self.nodes[i]).node_type == o.nodes[i].node_type
                &&& self.nodes[i].parent == o.nodes[i].parent
                &&& self.nodes[i].children == o.nodes[i].children
                &&& self.nodes[i].inline_styles == o.nodes[i].inline_styles
            }
    }

    /// A document that holds only its root element, tagged `root`.
    pub fn new(doctype: &str) -> (r: Dom)
        ensures
            r.wf(),
            r.doctype@ == doctype@,
            r.nodes.len() == 1,
            r.nodes[0].node_type matches NodeType::Element(e) && e.tag@ == "root"@ && e.attrs@
                == Map::<Seq<char>, Seq<char>>::empty(),
            r.nodes[0].parent is None,
            r.nodes[0].children@.len() == 0,
            r.nodes[0].applied_styles@.len() == 0,
            r.nodes[0].inline_styles@.len() == 0,
            r.stylesheets@.len() == 0,
    {
        let root = Node::new(NodeType::Element(ElementData::new("root", None)));
        let mut nodes: Vec<Node> = Vec::new();
        nodes.push(root);
        let r = Dom {
            doctype: doctype.to_owned(),
            root: 0,
            nodes,
            stylesheets: Vec::new(),
            rank: Ghost(Seq::<nat>::empty().push(0nat)),
            rank_bound: Ghost(1nat),
        };
        proof {
            assert(r.node_wf(0));
        }
        r
    }

    /// Adds `node` to the document as an orphan: it has no parent until it is
    /// appended somewhere.
    pub fn create(&mut self, node: Node) -> (r: NodeId)
        requires
            old(self).wf(),
            node.children@.len() == 0,
            old(self).nodes.len() < usize::MAX,
        ensures
            final(self).wf(),
            r == old(self).nodes.len(),
            final(self).nodes@ == old(self).nodes@.push(Node { parent: None, ..node }),
            final(self).doctype == old(self).doctype,
            final(self).stylesheets == old(self).stylesheets,
            final(self).root == old(self).root,
    {
        let mut node = node;
        node.parent = None;
        let r = self.nodes.len();
        self.nodes.push(node);
        proof {
            assert(old(self).node_wf(0));
        }
        self.rank = Ghost(self.rank@.push(0nat));
        proof {
            assert forall|i: int| 0 <= i < self.nodes.len() implies #[trigger] self.node_wf(i) by {
                if i < r {
                    assert(old(self).node_wf(i));
                    assert(self.nodes[i] == old(self).nodes[i]);
                }
            }
        }
        r
    }

    /// Appends a new node as the last child of `parent` and returns its handle.
    pub fn append_node(&mut self, parent: NodeId, node: Node) -> (r: NodeId)
        requires
            old(self).wf(),
            old(self).valid(parent as int),
            node.children@.len() == 0,
            old(self).nodes.len() < usize::MAX,
        ensures
            final(self).wf(),
            r == old(self).nodes.len(),
            final(self).nodes.len() == old(self).nodes.len() + 1,
            final(self).nodes[r as int] == (Node { parent: Some(parent), ..node }),
            final(self).children_of(parent as int) == old(self).children_of(parent as int).push(r),
            final(self).nodes[parent as int] == (Node {
                children: final(self).nodes[parent as int].children,
                ..old(self).nodes[parent as int]
            }),
            forall|i: int|
                0 <= i < old(self).nodes.len() && i != parent ==> #[trigger] final(self).nodes[i]
                    == old(self).nodes[i],
            final(self).doctype == old(self).doctype,
            final(self).stylesheets == old(self).stylesheets,
            final(self).root == old(self).root,
    {
        let mut node = node;
        node.parent = Some(parent);
        let r = self.nodes.len();
        self.nodes.push(node);
        self.nodes[parent].children.push(r);
        let ghost pr = self.rank@[parent as int] + 1;
        self.rank = Ghost(self.rank@.push(pr));
        self.rank_bound = Ghost(if pr + 1 > self.rank_bound@ { (pr + 1) as nat } else { self.rank_bound@ });
        proof {
            assert forall|i: int| 0 <= i < self.nodes.len() implies #[trigger] self.node_wf(i) by {
                if i < r {
                    assert(old(self).node_wf(i));
                    if i != parent {
                        assert(self.nodes[i] == old(self).nodes[i]);
                    } else {
                        assert forall|k: int| 0 <= k < self.children_of(i).len() implies {
                            let c = #[trigger] self.children_of(i)[k];
                            &&& c < self.nodes.len()
                            &&& self.parent_of(c as int) == Some(i as NodeId)
                        } by {
                            if k < self.children_of(i).len() - 1 {
                                assert(self.children_of(i)[k] == old(self).children_of(i)[k]);
                            }
                        }
                    }
                    if let Some(p) = self.parent_of(i) {
                        assert(old(self).children_of(p as int).contains(i as NodeId));
                        let k = choose|k: int|
                            0 <= k < old(self).children_of(p as int).len()
                                && old(self).children_of(p as int)[k] == i;
                        assert(self.children_of(p as int)[k] == i);
                    }
                } else {
                    assert(self.children_of(parent as int).last() == r);
                }
            }
        }
        r
    }

    /// Appends a new element with `tag` and `attrs` as the last child of `parent`.
    pub fn append_element(&mut self, parent: NodeId, tag: &str, attrs: Option<AttrMap>) -> (r: NodeId)
        requires
            old(self).wf(),
            old(self).valid(parent as int),
            old(self).nodes.len() < usize::MAX,
        ensures
            final(self).wf(),
            r == old(self).nodes.len(),
            final(self).nodes.len() == old(self).nodes.len() + 1,
            final(self).nodes[r as int].node_type matches NodeType::Element(e) && e.tag@ == tag@
                && e.attrs@ == (match attrs {
                Some(a) => a@,
                None => Map::empty(),
            }),
            final(self).parent_of(r as int) == Some(parent),
            final(self).children_of(r as int).len() == 0,
            final(self).children_of(parent as int) == old(self).children_of(parent as int).push(r),
            forall|i: int|
                0 <= i < old(self).nodes.len() && i != parent ==> #[trigger] final(self).nodes[i]
                    == old(self).nodes[i],
            final(self).stylesheets == old(self).stylesheets,
    {
        let node = Node::new(NodeType::Element(ElementData::new(tag, attrs)));
        self.append_node(parent, node)
    }

    /// Appends a text node as the last child of `parent`.
    pub fn append_text(&mut self, parent: NodeId, text: &str) -> (r: NodeId)
        requires
            old(self).wf(),
            old(self).valid(parent as int),
            old(self).nodes.len() < usize::MAX,
        ensures
            final(self).wf(),
            r == old(self).nodes.len(),
            final(self).nodes.len() == old(self).nodes.len() + 1,
            final(self).nodes[r as int].node_type matches NodeType::Text(t) && t@ == text@,
            final(self).parent_of(r as int) == Some(parent),
            final(self).children_of(parent as int) == old(self).children_of(parent as int).push(r),
            forall|i: int|
                0 <= i < old(self).nodes.len() && i != parent ==> #[trigger] final(self).nodes[i]
                    == old(self).nodes[i],
            final(self).stylesheets == old(self).stylesheets,
    {
        let node = Node::new(NodeType::Text(text.to_owned()));
        self.append_node(parent, node)
    }

    /// Appends a comment node as the last child of `parent`.
    pub fn append_comment(&mut self, parent: NodeId, text: &str) -> (r: NodeId)
        requires
            old(self).wf(),
            old(self).valid(parent as int),
            old(self).nodes.len() < usize::MAX,
        ensures
            final(self).wf(),
            r == old(self).nodes.len(),
            final(self).nodes.len() == old(self).nodes.len() + 1,
            final(self).nodes[r as int].node_type matches NodeType::Comment(t) && t@ == text@,
            final(self).parent_of(r as int) == Some(parent),
            final(self).children_of(parent as int) == old(self).children_of(parent as int).push(r),
            forall|i: int|
                0 <= i < old(self).nodes.len() && i != parent ==> #[trigger] final(self).nodes[i]
                    == old(self).nodes[i],
            final(self).stylesheets == old(self).stylesheets,
    {
        let node = Node::new(NodeType::Comment(text.to_owned()));
        self.append_node(parent, node)
    }

    /// Position of `child` among the children of `parent`.
    pub(crate) fn child_position(&self, parent: NodeId, child: NodeId) -> (r: usize)
        requires
            self.wf(),
            self.valid(parent as int),
            self.children_of(parent as int).contains(child),
        ensures
            r < self.children_of(parent as int).len(),
            self.children_of(parent as int)[r as int] == child,
            r as int == self.children_of(parent as int).index_of(child),
    {
        let children = &self.nodes[parent].children;
        let mut k: usize = 0;
        while k < children.len()
            invariant
                self.wf(),
                self.valid(parent as int),
                children@ == self.children_of(parent as int),
                k <= children.len(),
                forall|j: int| 0 <= j < k ==> children@[j] != child,
                children@.contains(child),
            decreases children.len() - k,
        {
            if children[k] == child {
                proof {
                    assert(self.node_wf(parent as int));
                    let j = children@.index_of(child);
                    assert(children@[j] == child);
                }
                return k;
            }
            k = k + 1;
        }
        proof {
            let j = children@.index_of(child);
            assert(children@[j] == child);
        }
        0
    }

    /// Whether `a` is `x` or one of its ancestors.
    pub fn ancestor_or_self(&self, a: NodeId, x: NodeId) -> (r: bool)
        requires
            self.wf(),
            self.valid(x as int),
        ensures
            r == self.is_ancestor_or_self(a as int, x as int),
    {
        let mut cur = x;
        while cur != a
            invariant
                self.wf(),
                self.valid(cur as int),
                self.is_ancestor_or_self(a as int, x as int) == self.is_ancestor_or_self(a as int, cur as int),
            decreases self.rank_of(cur as int),
        {
            proof {
                assert(self.node_wf(cur as int));
            }
            match self.nodes[cur].parent {
                Some(p) => {
                    cur = p;
                },
                None => {
                    return false;
                },
            }
        }
        true
    }

    /// Moves the subtree rooted at `child` to the end of `parent`'s children,
    /// detaching it from its former parent if it had one. The move is refused
    /// when it would make a node its own ancestor (`child` is `parent` or one
    /// of its ancestors) and when `child` is the document's root.
    pub fn append_shared_node(&mut self, parent: NodeId, child: NodeId) -> (r: Result<NodeId, Error>)
        requires
            old(self).wf(),
            old(self).valid(parent as int),
            old(self).valid(child as int),
        ensures
            final(self).wf(),
            r is Ok <==> child != old(self).root && !old(self).is_ancestor_or_self(child as int, parent as int),
            r is Ok ==> r == Ok::<NodeId, Error>(child),
            r is Err ==> r == Err::<NodeId, Error>(Error::CannotAppend) && *final(self) == *old(self),
            r is Ok ==> {
                &&& final(self).parent_of(child as int) == Some(parent)
                &&& final(self).nodes.len() == old(self).nodes.len()
                &&& forall|i: int| 0 <= i < final(self).nodes.len() ==> {
                    &&& (#[trigger] final(self).nodes[i]).node_type == old(self).nodes[i].node_type
                    &&& final(self).nodes[i].applied_styles == old(self).nodes[i].applied_styles
                    &&& final(self).nodes[i].inline_styles == old(self).nodes[i].inline_styles
                    &&& i != child ==> final(self).parent_of(i) == old(self).parent_of(i)
                    &&& final(self).children_of(i) == if i == parent {
                        detached(old(self).children_of(i), child).push(child)
                    } else {
                        detached(old(self).children_of(i), child)
                    }
                }
                &&& final(self).stylesheets == old(self).stylesheets
                &&& final(self).doctype == old(self).doctype
                &&& final(self).root == old(self).root
            },
    {
        if child == self.root || self.ancestor_or_self(child, parent) {
            return Err(Error::CannotAppend);
        }
        let ghost before = *self;
        let former = self.nodes[child].parent;
        match former {
            Some(q) => {
                proof {
                    assert(before.node_wf(child as int));
                }
                let k = self.child_position(q, child);
                self.nodes[q].children.remove(k);
            },
            None => {},
        }
        self.nodes[child].parent = Some(parent);
        self.nodes[parent].children.push(child);
        let ghost shift = before.rank_of(parent as int) + 1 - before.rank_of(child as int);
        self.rank = Ghost(
            Seq::new(
                before.rank@.len(),
                |x: int|
                    if before.is_ancestor_or_self(child as int, x) {
                        (before.rank@[x] + shift) as nat
                    } else {
                        before.rank@[x]
                    },
            ),
        );
        self.rank_bound = Ghost((before.rank_bound@ + before.rank_of(parent as int) + 1) as nat);
        proof {
            let after = *self;
            assert forall|x: int| 0 <= x < before.nodes.len() && #[trigger] before.is_ancestor_or_self(child as int, x)
                implies before.rank_of(x) >= before.rank_of(child as int) by {
                lemma_ancestor_rank(&before, child as int, x);
            }
            assert forall|i: int| 0 <= i < after.nodes.len() implies {
                &&& (#[trigger] after.nodes[i]).node_type == before.nodes[i].node_type
                &&& after.nodes[i].applied_styles == before.nodes[i].applied_styles
                &&& after.nodes[i].inline_styles == before.nodes[i].inline_styles
                &&& i != child ==> after.parent_of(i) == before.parent_of(i)
                &&& after.children_of(i) == if i == parent {
                    detached(before.children_of(i), child).push(child)
                } else {
                    detached(before.children_of(i), child)
                }
            } by {
                assert(before.node_wf(i));
                if before.children_of(i).contains(child) {
                    let j = before.children_of(i).index_of(child);
                    assert(before.children_of(i)[j] == child);
                    assert(former == Some(i as NodeId));
                }
            }
            assert forall|i: int| 0 <= i < after.nodes.len() implies #[trigger] after.node_wf(i) by {
                assert(before.node_wf(i));
                if before.is_ancestor_or_self(child as int, i) {
                    lemma_ancestor_rank(&before, child as int, i);
                }
                if let Some(p) = after.parent_of(i) {
                    if i == child {
                        assert(!before.is_ancestor_or_self(child as int, parent as int));
                    } else {
                        assert(before.node_wf(p as int));
                        if before.is_ancestor_or_self(child as int, p as int) {
                            assert(before.is_ancestor_or_self(child as int, i));
                        }
                        if before.is_ancestor_or_self(child as int, i) {
                            assert(before.is_ancestor_or_self(child as int, p as int));
                        }
                    }
                }
                lemma_detached(before.children_of(i), child);
                if i == parent {
                    assert forall|k: int| 0 <= k < after.children_of(i).len() implies {
                        let c = #[trigger] after.children_of(i)[k];
                        &&& c < after.nodes.len()
                        &&& after.parent_of(c as int) == Some(i as NodeId)
                    } by {
                        if k < after.children_of(i).len() - 1 {
                            assert(detached(before.children_of(i), child).contains(
                                after.children_of(i)[k],
                            ));
                        }
                    }
                    assert(!detached(before.children_of(i), child).contains(child));
                } else {
                    assert forall|k: int| 0 <= k < after.children_of(i).len() implies {
                        let c = #[trigger] after.children_of(i)[k];
                        &&& c < after.nodes.len()
                        &&& after.parent_of(c as int) == Some(i as NodeId)
                    } by {
                        assert(detached(before.children_of(i), child).contains(
                            after.children_of(i)[k],
                        ));
                    }
                }
                if let Some(p) = after.parent_of(i) {
                    if i == child {
                        assert(after.children_of(p as int).last() == child);
                    } else {
                        assert(before.node_wf(p as int));
                        assert(before.children_of(p as int).contains(i as NodeId));
                        lemma_detached(before.children_of(p as int), child);
                        assert(detached(before.children_of(p as int), child).contains(i as NodeId));
                        if p == parent {
                            let s = detached(before.children_of(p as int), child);
                            let j = choose|j: int| 0 <= j < s.len() && s[j] == i;
                            assert(after.children_of(p as int)[j] == i);
                        }
                    }
                }
            }
        }
        Ok(child)
    }

    /// Sets an attribute of an element; text and comment nodes have none.
    pub fn set_attr(&mut self, node: NodeId, key: &str, value: &str) -> (r: Result<(), Error>)
        requires
            old(self).wf(),
            old(self).valid(node as int),
        ensures
            final(self).wf(),
            r is Ok <==> old(self).is_element(node as int),
            r is Err ==> r == Err::<(), Error>(Error::NotAnElement) && *final(self) == *old(self),
            r is Ok ==> (final(self).nodes[node as int].node_type matches NodeType::Element(e)
                && (old(self).nodes[node as int].node_type matches NodeType::Element(e0) && e.tag
                == e0.tag && e.attrs@ == e0.attrs@.insert(key@, value@))),
            r is Ok ==> final(self).nodes[node as int] == (Node {
                node_type: final(self).nodes[node as int].node_type,
                ..old(self).nodes[node as int]
            }),
            forall|i: int|
                0 <= i < old(self).nodes.len() && i != node ==> #[trigger] final(self).nodes[i]
                    == old(self).nodes[i],
            final(self).nodes.len() == old(self).nodes.len(),
            final(self).doctype == old(self).doctype,
            final(self).stylesheets == old(self).stylesheets,
            final(self).root == old(self).root,
    {
        if !matches!(self.nodes[node].node_type, NodeType::Element(_)) {
            return Err(Error::NotAnElement);
        }
        let ghost before = *self;
        let r = match &mut self.nodes[node].node_type {
            NodeType::Element(e) => {
                e.attrs.insert(key, value);
                Ok(())
            },
            _ => Err(Error::NotAnElement),
        };
        proof {
            assert forall|i: int| 0 <= i < self.nodes.len() implies #[trigger] self.node_wf(i) by {
                assert(before.node_wf(i));
            }
        }
        r
    }

    /// The value of an attribute of an element; text and comment nodes have none.
    pub fn get_attr(&self, node: NodeId, key: &str) -> (r: Option<String>)
        requires
            self.valid(node as int),
        ensures
            match self.nodes[node as int].node_type {
                NodeType::Element(e) => match r {
                    Some(v) => attr_of(e, key@) == Some(v@),
                    None => attr_of(e, key@) is None,
                },
                _ => r is None,
            },
    {
        match &self.nodes[node].node_type {
            NodeType::Element(e) => match e.attrs.get(key) {
                Some(v) => Some(v.clone()),
                None => None,
            },
            _ => None,
        }
    }

    /// The parent of a node; a root has none.
    pub fn parent(&self, node: NodeId) -> (r: Result<NodeId, Error>)
        requires
            self.valid(node as int),
        ensures
            match self.parent_of(node as int) {
                Some(p) => r == Ok::<NodeId, Error>(p),
                None => r == Err::<NodeId, Error>(Error::Unreachable(UnreachableError::NoParent)),
            },
    {
        match self.nodes[node].parent {
            Some(p) => Ok(p),
            None => Err(Error::Unreachable(UnreachableError::NoParent)),
        }
    }

    /// Records the declarations of a node's `style` attribute, which the next
    /// cascade pass applies.
    pub fn set_inline_style(&mut self, node: NodeId, decls: Vec<(String, PropertyValue)>)
        requires
            old(self).wf(),
            old(self).valid(node as int),
        ensures
            final(self).wf(),
            final(self).nodes[node as int] == (Node {
                inline_styles: decls,
                ..old(self).nodes[node as int]
            }),
            forall|i: int|
                0 <= i < old(self).nodes.len() && i != node ==> #[trigger] final(self).nodes[i]
                    == old(self).nodes[i],
            final(self).nodes.len() == old(self).nodes.len(),
            final(self).doctype == old(self).doctype,
            final(self).stylesheets == old(self).stylesheets,
            final(self).root == old(self).root,
    {
        let ghost before = *self;
        self.nodes[node].inline_styles = decls;
        proof {
            assert forall|i: int| 0 <= i < self.nodes.len() implies #[trigger] self.node_wf(i) by {
                assert(before.node_wf(i));
            }
        }
    }
}

/// Well-formedness depends on the tree alone.
pub proof fn lemma_same_tree_wf(d1: &Dom, d2: &Dom)
    requires
        d1.wf(),
        d2.same_tree(d1),
    ensures
        d2.wf(),
{
    assert forall|i: int| 0 <= i < d2.nodes.len() implies #[trigger] d2.node_wf(i) by {
        assert(d1.node_wf(i));
        assert(d2.nodes[i].parent == d1.nodes[i].parent);
        assert(d2.nodes[i].children == d1.nodes[i].children);
        if let Some(p) = d2.parent_of(i) {
            assert(d2.nodes[p as int].children == d1.nodes[p as int].children);
        }
        assert forall|k: int| 0 <= k < d2.children_of(i).len() implies {
            let c = #[trigger] d2.children_of(i)[k];
            &&& c < d2.nodes.len()
            &&& d2.parent_of(c as int) == Some(i as NodeId)
        } by {
            let c = d2.children_of(i)[k];
            assert(d1.children_of(i)[k] == c);
            assert(d2.nodes[c as int].parent == d1.nodes[c as int].parent);
        }
    }
    assert(d2.nodes[0].node_type == d1.nodes[0].node_type);
}

/// An ancestor ranks no higher than its descendants.
pub proof fn lemma_ancestor_rank(dom: &Dom, a: int, x: int)
    requires
        dom.is_ancestor_or_self(a, x),
    ensures
        dom.rank_of(a) <= dom.rank_of(x),
    decreases dom.rank_of(x),
{
    if x != a {
        let p = dom.parent_of(x)->0 as int;
        lemma_ancestor_rank(dom, a, p);
    }
}

/// `s` without the occurrence of `c`, if it holds one.
pub open spec fn detached(s: Seq<NodeId>, c: NodeId) -> Seq<NodeId> {
    if s.contains(c) {
        s.remove(s.index_of(c))
    } else {
        s
    }
}

proof fn lemma_detached(s: Seq<NodeId>, c: NodeId)
    requires
        s.no_duplicates(),
    ensures
        detached(s, c).no_duplicates(),
        !detached(s, c).contains(c),
        forall|x: NodeId| x != c ==> (#[trigger] detached(s, c).contains(x) <==> s.contains(x)),
        forall|k: int| 0 <= k < detached(s, c).len() ==> s.contains(#[trigger] detached(s, c)[k]),
{
    if s.contains(c) {
        let j = s.index_of(c);
        assert(s[j] == c);
        s.remove_ensures(j);
        let d = s.remove(j);
        assert forall|x: NodeId| x != c implies (#[trigger] d.contains(x) <==> s.contains(x)) by {
            if s.contains(x) {
                let m = choose|m: int| 0 <= m < s.len() && s[m] == x;
                if m < j {
                    assert(d[m] == x);
                } else {
                    assert(d[m - 1] == x);
                }
            }
            if d.contains(x) {
                let m = choose|m: int| 0 <= m < d.len() && d[m] == x;
                if m < j {
                    assert(s[m] == x);
                } else {
                    assert(s[m + 1] == x);
                }
            }
        }
        assert forall|k: int| 0 <= k < d.len() implies s.contains(#[trigger] d[k]) by {
            if k < j {
                assert(s[k] == d[k]);
            } else {
                assert(s[k + 1] == d[k]);
            }
        }
    }
}

} // verus!
