//! Selector matching: which nodes a complex selector selects.

use vstd::prelude::*;

use crate::dom::Dom;
use crate::css::{parse_selector, selector_of};
use crate::error::{Error, UnreachableError};
use crate::node::{selector_matches, NodeId, NodeType};
use crate::stylesheet::{Combinator, ComplexSelector, Selector};

verus! {

impl Dom {
    /// `m` lies strictly below `a`, and every node between them is an element.
    pub open spec fn is_elem_desc(&self, m: int, a: int) -> bool
        decreases self.rank_of(m),
    {
        if 0 <= m < self.nodes.len() {
            match self.parent_of(m) {
                Some(p) => if self.ranked_below(p as int, m) {
                    p == a || (self.is_element(p as int) && self.is_elem_desc(p as int, a))
                } else {
                    false
                },
                None => false,
            }
        } else {
            false
        }
    }

    /// Node `m` is an element that the compound selector matches.
    pub open spec fn node_matches(&self, m: int, sel: Selector) -> bool {
        self.nodes[m].node_type matches NodeType::Element(e) && selector_matches(sel, e)
    }

    /// The nodes of `s` that `simple` matches, in order.
    pub open spec fn matching(&self, s: Seq<NodeId>, simple: Selector) -> Seq<NodeId>
        decreases s.len(),
    {
        if s.len() == 0 {
            Seq::empty()
        } else if self.node_matches(s.last() as int, simple) {
            self.matching(s.drop_last(), simple).push(s.last())
        } else {
            self.matching(s.drop_last(), simple)
        }
    }

    /// What the adjacent-sibling step yields for `c`, whose parent is `p`:
    /// its next sibling if `simple` matches it, else nothing.
    pub open spec fn next_sibling_match(&self, p: int, c: NodeId, simple: Selector) -> Seq<NodeId> {
        let sibs = self.children_of(p);
        let k = sibs.index_of(c);
        if k + 1 < sibs.len() && self.node_matches(sibs[k + 1] as int, simple) {
            seq![sibs[k + 1]]
        } else {
            Seq::empty()
        }
    }

    /// What the general-sibling step yields for `c`, whose parent is `p`: the
    /// siblings after it that `simple` matches, in order.
    pub open spec fn later_sibling_matches(&self, p: int, c: NodeId, simple: Selector) -> Seq<NodeId> {
        let sibs = self.children_of(p);
        self.matching(sibs.subrange(sibs.index_of(c) + 1, sibs.len() as int), simple)
    }

    /// `m` is `c`'s next sibling.
    pub open spec fn is_next_sibling(&self, c: int, m: int) -> bool {
        self.parent_of(c) matches Some(p) && exists|k: int|
            0 <= k && k + 1 < self.children_of(p as int).len() && #[trigger] self.children_of(
                p as int,
            )[k] == c && self.children_of(p as int)[k + 1] == m
    }

    /// `m` is a sibling that comes after `c`.
    pub open spec fn is_later_sibling(&self, c: int, m: int) -> bool {
        self.parent_of(c) matches Some(p) && exists|k: int, j: int|
            0 <= k < j < self.children_of(p as int).len() && #[trigger] self.children_of(
                p as int,
            )[k] == c && #[trigger] self.children_of(p as int)[j] == m
    }

    /// The relation that a combinator asks of a candidate `c` and a node `m`.
    pub open spec fn related(&self, comb: Combinator, c: int, m: int) -> bool {
        match comb {
            Combinator::Descendant => self.is_elem_desc(m, c),
            Combinator::Child => self.parent_of(m) == Some(c as NodeId),
            Combinator::AdjacentSibling => self.is_next_sibling(c, m),
            Combinator::GeneralSibling => self.is_later_sibling(c, m),
        }
    }

    /// The nodes that the first `k + 1` compound selectors of `sel` select,
    /// searching below `from`.
    pub open spec fn stage(&self, from: int, sel: ComplexSelector, k: int) -> Set<int>
        decreases k,
    {
        if k <= 0 {
            Set::new(
                |m: int|
                    0 <= m < self.nodes.len() && self.is_elem_desc(m, from) && self.node_matches(
                        m,
                        sel.inner[0],
                    ),
            )
        } else {
            let prev = self.stage(from, sel, k - 1);
            Set::new(
                |m: int|
                    0 <= m < self.nodes.len() && self.node_matches(m, sel.inner[k]) && exists|c: int|
                        #[trigger] prev.contains(c) && self.related(sel.combinators[k - 1], c, m),
            )
        }
    }

    /// What `select` finds: the nodes that the whole selector selects.
    pub open spec fn selects(&self, from: int, sel: ComplexSelector, m: int) -> bool {
        self.stage(from, sel, sel.inner.len() - 1).contains(m)
    }

    /// The selector is built as the selector grammar builds it: one more
    /// compound selector than combinators.
    pub open spec fn selector_shape_ok(sel: ComplexSelector) -> bool {
        sel.inner.len() >= 1 && sel.combinators.len() + 1 == sel.inner.len()
    }
}


/// `m` is the `k`-th child of `a` or lies below it through elements.
pub open spec fn in_child_subtree(dom: &Dom, a: int, k: int, m: int) -> bool {
    let ch = dom.children_of(a)[k] as int;
    ch == m || (dom.is_element(ch) && dom.is_elem_desc(m, ch))
}

/// Descent through elements depends on the tree alone.
pub proof fn lemma_same_tree_desc(d1: &Dom, d2: &Dom, m: int, a: int)
    requires
        d1.same_tree(d2),
    ensures
        d1.is_elem_desc(m, a) == d2.is_elem_desc(m, a),
    decreases d1.rank_of(m),
{
    if 0 <= m < d1.nodes.len() {
        assert(d1.nodes[m].parent == d2.nodes[m].parent);
        if let Some(p) = d1.parent_of(m) {
            if d1.ranked_below(p as int, m) {
                assert(d1.nodes[p as int].node_type == d2.nodes[p as int].node_type);
                lemma_same_tree_desc(d1, d2, p as int, a);
            }
        }
    }
}

/// What a selector selects depends on the tree alone.
pub proof fn lemma_same_tree_stage(d1: &Dom, d2: &Dom, from: int, sel: ComplexSelector, k: int)
    requires
        d1.wf(),
        d1.same_tree(d2),
    ensures
        d1.stage(from, sel, k) == d2.stage(from, sel, k),
    decreases k,
{
    assert forall|m: int| 0 <= m < d1.nodes.len() implies #[trigger] d1.is_elem_desc(m, from) == d2.is_elem_desc(m, from) by {
        lemma_same_tree_desc(d1, d2, m, from);
    }
    assert forall|m: int, c: int, comb: Combinator| 0 <= m < d1.nodes.len() && 0 <= c < d1.nodes.len() implies #[trigger] d1.related(comb, c, m) == d2.related(comb, c, m) by {
        assert(d1.nodes[m].parent == d2.nodes[m].parent);
        lemma_same_tree_desc(d1, d2, m, c);
        assert(d1.nodes[c].parent == d2.nodes[c].parent);
        assert(d1.node_wf(c));
        if let Some(p) = d1.parent_of(c) {
            assert(d1.nodes[p as int].children == d2.nodes[p as int].children);
            assert(d1.children_of(p as int) == d2.children_of(p as int));
            assert(d1.is_next_sibling(c, m) == d2.is_next_sibling(c, m));
            assert(d1.is_later_sibling(c, m) == d2.is_later_sibling(c, m));
        }
    }
    assert forall|m: int, s: Selector| 0 <= m < d1.nodes.len() implies #[trigger] d1.node_matches(m, s) == d2.node_matches(m, s) by {
        assert(d1.nodes[m].node_type == d2.nodes[m].node_type);
    }
    if k > 0 {
        lemma_same_tree_stage(d1, d2, from, sel, k - 1);
    }
    assert(d1.stage(from, sel, k) =~= d2.stage(from, sel, k));
}

proof fn lemma_desc_trans(dom: &Dom, m: int, ch: int, a: int)
    requires
        dom.wf(),
        dom.is_elem_desc(m, ch),
        dom.is_element(ch),
        dom.is_elem_desc(ch, a),
    ensures
        dom.is_elem_desc(m, a),
    decreases dom.rank_of(m),
{
    let p = dom.parent_of(m)->0 as int;
    if p != ch {
        lemma_desc_trans(dom, p, ch, a);
    }
}

proof fn lemma_desc_split(dom: &Dom, m: int, a: int)
    requires
        dom.wf(),
        dom.valid(a),
        dom.valid(m),
    ensures
        dom.is_elem_desc(m, a) <==> exists|k: int|
            0 <= k < dom.children_of(a).len() && #[trigger] in_child_subtree(dom, a, k, m),
    decreases dom.rank_of(m),
{
    assert(dom.node_wf(a));
    assert(dom.node_wf(m));
    if dom.is_elem_desc(m, a) {
        let p = dom.parent_of(m)->0 as int;
        if p == a {
            let k = choose|k: int| 0 <= k < dom.children_of(a).len() && dom.children_of(a)[k] == m;
            assert(in_child_subtree(dom, a, k, m));
        } else {
            lemma_desc_split(dom, p, a);
            let k = choose|k: int| 0 <= k < dom.children_of(a).len() && #[trigger] in_child_subtree(dom, a, k, p);
            assert(in_child_subtree(dom, a, k, m));
        }
    }
    if exists|k: int| 0 <= k < dom.children_of(a).len() && #[trigger] in_child_subtree(dom, a, k, m) {
        let k = choose|k: int| 0 <= k < dom.children_of(a).len() && #[trigger] in_child_subtree(dom, a, k, m);
        let ch = dom.children_of(a)[k] as int;
        assert(dom.node_wf(ch));
        assert(dom.is_elem_desc(ch, a));
        if ch != m {
            lemma_desc_trans(dom, m, ch, a);
        }
    }
}

proof fn lemma_contains_concat(a: Seq<NodeId>, b: Seq<NodeId>, x: NodeId)
    ensures
        (a + b).contains(x) <==> (a.contains(x) || b.contains(x)),
{
    if (a + b).contains(x) {
        let k = choose|k: int| 0 <= k < (a + b).len() && (a + b)[k] == x;
        if k < a.len() {
            assert(a[k] == x);
        } else {
            assert(b[k - a.len()] == x);
        }
    }
    if a.contains(x) {
        let k = choose|k: int| 0 <= k < a.len() && a[k] == x;
        assert((a + b)[k] == x);
    }
    if b.contains(x) {
        let k = choose|k: int| 0 <= k < b.len() && b[k] == x;
        assert((a + b)[a.len() + k] == x);
    }
}

proof fn lemma_contains_push(a: Seq<NodeId>, y: NodeId, x: NodeId)
    ensures
        a.push(y).contains(x) <==> (a.contains(x) || x == y),
{
    assert(a.push(y) =~= a + seq![y]);
    lemma_contains_concat(a, seq![y], x);
    if seq![y].contains(x) {
        let k = choose|k: int| 0 <= k < 1 && seq![y][k] == x;
    }
    if x == y {
        assert(seq![y][0] == x);
    }
}

fn contains_id(v: &Vec<NodeId>, x: NodeId) -> (r: bool)
    ensures
        r == v@.contains(x),
{
    let mut j: usize = 0;
    while j < v.len()
        invariant
            j <= v.len(),
            forall|k: int| 0 <= k < j ==> v@[k] != x,
        decreases v.len() - j,
    {
        if v[j] == x {
            return true;
        }
        j = j + 1;
    }
    false
}

/// Appends to `v` each item of `items` that it does not hold yet.
fn push_new(v: &mut Vec<NodeId>, items: &Vec<NodeId>)
    requires
        old(v)@.no_duplicates(),
    ensures
        final(v)@.no_duplicates(),
        forall|x: NodeId| final(v)@.contains(x) <==> (old(v)@.contains(x) || items@.contains(x)),
{
    let mut i: usize = 0;
    while i < items.len()
        invariant
            i <= items.len(),
            v@.no_duplicates(),
            forall|x: NodeId| v@.contains(x) <==> (old(v)@.contains(x) || items@.take(i as int).contains(x)),
        decreases items.len() - i,
    {
        let x = items[i];
        let ghost before = v@;
        proof {
            assert(items@.take(i as int + 1) =~= items@.take(i as int).push(x));
        }
        if !contains_id(v, x) {
            v.push(x);
        }
        proof {
            assert forall|y: NodeId| v@.contains(y) <==> (old(v)@.contains(y) || items@.take(i as int + 1).contains(y)) by {
                lemma_contains_push(before, x, y);
                lemma_contains_push(items@.take(i as int), x, y);
            }
        }
        i = i + 1;
    }
    proof {
        assert(items@.take(i as int) =~= items@);
    }
}

impl Dom {
    /// The elements below `node` (through elements) that `simple` matches, in
    /// document order.
    fn select_simple_recursive(&self, node: NodeId, simple: &Selector) -> (r: Vec<NodeId>)
        requires
            self.wf(),
            self.valid(node as int),
        ensures
            forall|m: NodeId| #[trigger] r@.contains(m) <==> (self.valid(m as int) && self.is_elem_desc(m as int, node as int)
                && self.node_matches(m as int, *simple)),
        decreases self.rank_bound@ - self.rank_of(node as int),
    {
        let mut out: Vec<NodeId> = Vec::new();
        let children = &self.nodes[node].children;
        proof {
            assert(self.node_wf(node as int));
        }
        let mut k: usize = 0;
        while k < children.len()
            invariant
                self.wf(),
                self.valid(node as int),
                children@ == self.children_of(node as int),
                k <= children.len(),
                forall|m: NodeId| #[trigger] out@.contains(m) <==> (self.valid(m as int) && self.node_matches(m as int, *simple)
                    && exists|q: int| 0 <= q < k && #[trigger] in_child_subtree(self, node as int, q, m as int)),
            decreases children.len() - k,
        {
            let ch = children[k];
            proof {
                assert(self.node_wf(node as int));
                assert(ch < self.nodes.len());
                assert(self.node_wf(ch as int));
                assert(self.node_wf(node as int));
            }
            let ghost before = out@;
            if let NodeType::Element(e) = &self.nodes[ch].node_type {
                if e.matches_selector(simple) {
                    out.push(ch);
                }
                let below = self.select_simple_recursive(ch, simple);
                let mut j: usize = 0;
                let ghost mid = out@;
                while j < below.len()
                    invariant
                        j <= below.len(),
                        out@ == mid + below@.take(j as int),
                    decreases below.len() - j,
                {
                    out.push(below[j]);
                    j = j + 1;
                    proof {
                        assert(below@.take(j as int) =~= below@.take(j as int - 1).push(below@[j - 1]));
                    }
                }
                proof {
                    assert(below@.take(j as int) =~= below@);
                    assert forall|m: NodeId| #[trigger] out@.contains(m) <==> (self.valid(m as int) && self.node_matches(m as int, *simple)
                        && exists|q: int| 0 <= q < k + 1 && #[trigger] in_child_subtree(self, node as int, q, m as int)) by {
                        lemma_contains_concat(mid, below@, m);
                        lemma_contains_push(before, ch, m);
                        if below@.contains(m) || m == ch {
                            assert(in_child_subtree(self, node as int, k as int, m as int));
                        }
                        if self.valid(m as int) && self.node_matches(m as int, *simple) && exists|q: int| 0 <= q < k + 1 && #[trigger] in_child_subtree(self, node as int, q, m as int) {
                            let q = choose|q: int| 0 <= q < k + 1 && #[trigger] in_child_subtree(self, node as int, q, m as int);
                            if q < k {
                                assert(before.contains(m));
                            }
                        }
                    }
                }
            } else {
                proof {
                    assert forall|m: NodeId| #[trigger] out@.contains(m) <==> (self.valid(m as int) && self.node_matches(m as int, *simple)
                        && exists|q: int| 0 <= q < k + 1 && #[trigger] in_child_subtree(self, node as int, q, m as int)) by {
                        if self.valid(m as int) && self.node_matches(m as int, *simple) && exists|q: int| 0 <= q < k + 1 && #[trigger] in_child_subtree(self, node as int, q, m as int) {
                            let q = choose|q: int| 0 <= q < k + 1 && #[trigger] in_child_subtree(self, node as int, q, m as int);
                            if q == k {
                                assert(m == ch);
                            }
                        }
                    }
                }
            }
            k = k + 1;
        }
        proof {
            assert forall|m: NodeId| #[trigger] out@.contains(m) <==> (self.valid(m as int) && self.is_elem_desc(m as int, node as int)
                && self.node_matches(m as int, *simple)) by {
                if self.valid(m as int) {
                    lemma_desc_split(self, m as int, node as int);
                }
            }
        }
        out
    }

    /// Whether node `m` is an element that `simple` matches.
    fn matches_at(&self, m: NodeId, simple: &Selector) -> (r: bool)
        requires
            self.valid(m as int),
        ensures
            r == self.node_matches(m as int, *simple),
    {
        match &self.nodes[m].node_type {
            NodeType::Element(e) => e.matches_selector(simple),
            _ => false,
        }
    }

    /// The children of `node` that `simple` matches.
    fn select_simple_no_recursive(&self, node: NodeId, simple: &Selector) -> (r: Vec<NodeId>)
        requires
            self.wf(),
            self.valid(node as int),
        ensures
            forall|m: NodeId| #[trigger] r@.contains(m) <==> (self.valid(m as int) && self.parent_of(m as int) == Some(node)
                && self.node_matches(m as int, *simple)),
    {
        let mut out: Vec<NodeId> = Vec::new();
        let children = &self.nodes[node].children;
        proof {
            assert(self.node_wf(node as int));
        }
        let mut k: usize = 0;
        while k < children.len()
            invariant
                self.wf(),
                self.valid(node as int),
                children@ == self.children_of(node as int),
                k <= children.len(),
                forall|m: NodeId| #[trigger] out@.contains(m) <==> (self.node_matches(m as int, *simple)
                    && children@.take(k as int).contains(m)),
            decreases children.len() - k,
        {
            let ch = children[k];
            let ghost before = out@;
            proof {
                assert(self.node_wf(node as int));
                assert(children@.take(k as int + 1) =~= children@.take(k as int).push(ch));
            }
            if self.matches_at(ch, simple) {
                out.push(ch);
            }
            proof {
                assert forall|m: NodeId| #[trigger] out@.contains(m) <==> (self.node_matches(m as int, *simple)
                    && children@.take(k as int + 1).contains(m)) by {
                    lemma_contains_push(before, ch, m);
                    lemma_contains_push(children@.take(k as int), ch, m);
                }
            }
            k = k + 1;
        }
        proof {
            assert(children@.take(k as int) =~= children@);
            assert forall|m: NodeId| #[trigger] out@.contains(m) <==> (self.valid(m as int) && self.parent_of(m as int) == Some(node)
                && self.node_matches(m as int, *simple)) by {
                if out@.contains(m) {
                    let q = choose|q: int| 0 <= q < children@.len() && children@[q] == m;
                    assert(self.children_of(node as int)[q] == m);
                }
                if self.valid(m as int) && self.parent_of(m as int) == Some(node) {
                    assert(self.node_wf(m as int));
                }
            }
        }
        out
    }

    /// `c`'s next sibling, if it is an element that `simple` matches; a node
    /// without a parent has no siblings to look at.
    fn select_simple_only_next(&self, c: NodeId, simple: &Selector) -> (r: Result<Vec<NodeId>, Error>)
        requires
            self.wf(),
            self.valid(c as int),
        ensures
            match self.parent_of(c as int) {
                None => r == Err::<Vec<NodeId>, Error>(Error::Unreachable(UnreachableError::NoParent)),
                Some(p) => (r matches Ok(v) && v@ == self.next_sibling_match(p as int, c, *simple)
                    && forall|m: NodeId| #[trigger] v@.contains(m) <==> (self.valid(m as int)
                    && self.is_next_sibling(c as int, m as int) && self.node_matches(m as int, *simple))),
            },
    {
        let p = match self.nodes[c].parent {
            Some(p) => p,
            None => {
                return Err(Error::Unreachable(UnreachableError::NoParent));
            },
        };
        proof {
            assert(self.node_wf(c as int));
            assert(self.node_wf(p as int));
        }
        let k = self.child_position(p, c);
        let mut out: Vec<NodeId> = Vec::new();
        let children = &self.nodes[p].children;
        assert(k < children.len());
        if k + 1 < children.len() {
            let next = children[k + 1];
            if self.matches_at(next, simple) {
                out.push(next);
            }
        }
        proof {
            assert forall|m: NodeId| #[trigger] out@.contains(m) <==> (self.valid(m as int) && self.is_next_sibling(c as int, m as int)
                && self.node_matches(m as int, *simple)) by {
                if k + 1 < children.len() {
                    lemma_contains_push(Seq::<NodeId>::empty(), children@[k + 1], m);
                }
                if self.is_next_sibling(c as int, m as int) {
                    let j = choose|j: int| 0 <= j && j + 1 < self.children_of(p as int).len() && #[trigger] self.children_of(p as int)[j] == c && self.children_of(p as int)[j + 1] == m;
                    assert(j == k);
                }
                if out@.contains(m) {
                    assert(out@[0] == m);
                    assert(self.children_of(p as int)[k as int] == c);
                }
            }
            assert(out@ =~= self.next_sibling_match(p as int, c, *simple));
        }
        Ok(out)
    }

    /// The siblings after `c` that `simple` matches, in order; a node
    /// without a parent has no siblings to look at.
    fn select_simple_all_next(&self, c: NodeId, simple: &Selector) -> (r: Result<Vec<NodeId>, Error>)
        requires
            self.wf(),
            self.valid(c as int),
        ensures
            match self.parent_of(c as int) {
                None => r == Err::<Vec<NodeId>, Error>(Error::Unreachable(UnreachableError::NoParent)),
                Some(p) => (r matches Ok(v) && v@ == self.later_sibling_matches(p as int, c, *simple)
                    && forall|m: NodeId| #[trigger] v@.contains(m) <==> (self.valid(m as int)
                    && self.is_later_sibling(c as int, m as int) && self.node_matches(m as int, *simple))),
            },
    {
        let p = match self.nodes[c].parent {
            Some(p) => p,
            None => {
                return Err(Error::Unreachable(UnreachableError::NoParent));
            },
        };
        proof {
            assert(self.node_wf(c as int));
            assert(self.node_wf(p as int));
        }
        let k = self.child_position(p, c);
        let mut out: Vec<NodeId> = Vec::new();
        let children = &self.nodes[p].children;
        assert(k < children.len());
        let mut j: usize = k + 1;
        while j < children.len()
            invariant
                self.wf(),
                self.valid(p as int),
                children@ == self.children_of(p as int),
                k < children.len(),
                children@[k as int] == c,
                k + 1 <= j <= children.len(),
                forall|m: NodeId| #[trigger] out@.contains(m) <==> (self.node_matches(m as int, *simple)
                    && exists|i: int| k < i < j && children@[i] == m),
                out@ == self.matching(children@.subrange(k + 1, j as int), *simple),
            decreases children.len() - j,
        {
            let ch = children[j];
            let ghost before = out@;
            proof {
                let t = children@.subrange(k + 1, j + 1);
                assert(t.drop_last() =~= children@.subrange(k + 1, j as int));
                assert(t.last() == ch);
            }
            proof {
                assert(self.node_wf(p as int));
            }
            if self.matches_at(ch, simple) {
                out.push(ch);
            }
            proof {
                assert forall|m: NodeId| #[trigger] out@.contains(m) <==> (self.node_matches(m as int, *simple)
                    && exists|i: int| k < i < j + 1 && children@[i] == m) by {
                    lemma_contains_push(before, ch, m);
                    if exists|i: int| k < i < j + 1 && children@[i] == m {
                        let i = choose|i: int| k < i < j + 1 && children@[i] == m;
                        if i < j {
                            assert(exists|i: int| k < i < j && children@[i] == m);
                        }
                    }
                }
            }
            j = j + 1;
        }
        proof {
            assert forall|m: NodeId| #[trigger] out@.contains(m) <==> (self.valid(m as int) && self.is_later_sibling(c as int, m as int)
                && self.node_matches(m as int, *simple)) by {
                if out@.contains(m) {
                    let i = choose|i: int| k < i < j && children@[i] == m;
                    assert(self.children_of(p as int)[k as int] == c && self.children_of(p as int)[i] == m);
                    assert(self.node_wf(p as int));
                }
                if self.is_later_sibling(c as int, m as int) {
                    let (a, b) = choose|a: int, b: int| 0 <= a < b < self.children_of(p as int).len() && #[trigger] self.children_of(p as int)[a] == c && #[trigger] self.children_of(p as int)[b] == m;
                    assert(a == k);
                    assert(children@[b] == m);
                }
            }
        }
        Ok(out)
    }

    /// The nodes related to candidate `c` by `comb` that `simple` matches.
    fn step(&self, c: NodeId, comb: Combinator, simple: &Selector) -> (r: Vec<NodeId>)
        requires
            self.wf(),
            self.valid(c as int),
            self.parent_of(c as int) is Some,
        ensures
            forall|m: NodeId| #[trigger] r@.contains(m) <==> (self.valid(m as int) && self.related(comb, c as int, m as int)
                && self.node_matches(m as int, *simple)),
            forall|m: NodeId| #[trigger] r@.contains(m) ==> self.parent_of(m as int) is Some,
    {
        let r = match comb {
            Combinator::Descendant => self.select_simple_recursive(c, simple),
            Combinator::Child => self.select_simple_no_recursive(c, simple),
            Combinator::AdjacentSibling => match self.select_simple_only_next(c, simple) {
                Ok(v) => v,
                Err(_) => Vec::new(),
            },
            Combinator::GeneralSibling => match self.select_simple_all_next(c, simple) {
                Ok(v) => v,
                Err(_) => Vec::new(),
            },
        };
        proof {
            assert forall|m: NodeId| #[trigger] r@.contains(m) implies self.parent_of(m as int) is Some by {
                let p = self.parent_of(c as int)->0;
                assert(self.node_wf(c as int));
                assert(self.node_wf(p as int));
                if comb == Combinator::AdjacentSibling {
                    let k = choose|k: int| 0 <= k && k + 1 < self.children_of(p as int).len() && #[trigger] self.children_of(p as int)[k] == c && self.children_of(p as int)[k + 1] == m;
                    assert(self.children_of(p as int)[k + 1] == m);
                }
                if comb == Combinator::GeneralSibling {
                    let (k, j) = choose|k: int, j: int| 0 <= k < j < self.children_of(p as int).len() && #[trigger] self.children_of(p as int)[k] == c && #[trigger] self.children_of(p as int)[j] == m;
                    assert(self.children_of(p as int)[j] == m);
                }
            }
        }
        r
    }

    /// Checks that the selector has one compound selector more than combinators.
    pub fn check_shape(selector: &ComplexSelector) -> (r: Result<(), Error>)
        ensures
            selector.inner.len() == 0 ==> r == Err::<(), Error>(
                Error::Unreachable(UnreachableError::SelectorHasNoSimpleSelectors),
            ),
            selector.inner.len() > 0 && selector.combinators.len() >= selector.inner.len() ==> r
                == Err::<(), Error>(
                Error::Unreachable(UnreachableError::SelectorHasMoreCombinatorsThanSelectors),
            ),
            selector.combinators.len() + 1 < selector.inner.len() ==> r == Err::<(), Error>(
                Error::Unreachable(UnreachableError::SelectorHasFewerCombinatorsThanSelectors),
            ),
            r is Ok <==> Dom::selector_shape_ok(*selector),
    {
        if selector.inner.len() == 0 {
            return Err(Error::Unreachable(UnreachableError::SelectorHasNoSimpleSelectors));
        }
        if selector.combinators.len() >= selector.inner.len() {
            return Err(Error::Unreachable(UnreachableError::SelectorHasMoreCombinatorsThanSelectors));
        }
        if selector.combinators.len() + 1 < selector.inner.len() {
            return Err(Error::Unreachable(UnreachableError::SelectorHasFewerCombinatorsThanSelectors));
        }
        Ok(())
    }

    /// The nodes below `from` that `selector` selects, each once.
    ///
    /// The first compound selector is searched among all elements below
    /// `from`; each combinator then takes the candidates to the nodes that it
    /// relates to them and that the next compound selector matches.
    pub fn select(&self, from: NodeId, selector: &ComplexSelector) -> (r: Result<Vec<NodeId>, Error>)
        requires
            self.wf(),
            self.valid(from as int),
        ensures
            selector.inner.len() == 0 ==> r == Err::<Vec<NodeId>, Error>(
                Error::Unreachable(UnreachableError::SelectorHasNoSimpleSelectors),
            ),
            selector.inner.len() > 0 && selector.combinators.len() >= selector.inner.len() ==> r
                == Err::<Vec<NodeId>, Error>(
                Error::Unreachable(UnreachableError::SelectorHasMoreCombinatorsThanSelectors),
            ),
            selector.combinators.len() + 1 < selector.inner.len() ==> r == Err::<Vec<NodeId>, Error>(
                Error::Unreachable(UnreachableError::SelectorHasFewerCombinatorsThanSelectors),
            ),
            r is Ok <==> Dom::selector_shape_ok(*selector),
            r matches Ok(v) ==> v@.no_duplicates() && forall|m: NodeId| #[trigger]
                v@.contains(m) <==> self.selects(from as int, *selector, m as int),
    {
        if let Err(e) = Dom::check_shape(selector) {
            return Err(e);
        }
        let first = self.select_simple_recursive(from, &selector.inner[0]);
        let mut candidates: Vec<NodeId> = Vec::new();
        push_new(&mut candidates, &first);
        proof {
            assert forall|m: NodeId| #[trigger] candidates@.contains(m) <==> self.stage(from as int, *selector, 0).contains(m as int) by {
                assert(!Seq::<NodeId>::empty().contains(m));
                assert(candidates@.contains(m) <==> first@.contains(m));
            }
            assert forall|m: NodeId| #[trigger] candidates@.contains(m) implies self.parent_of(m as int) is Some by {
                assert(!Seq::<NodeId>::empty().contains(m));
                assert(first@.contains(m));
            }
        }
        let mut i: usize = 0;
        while i < selector.combinators.len()
            invariant
                self.wf(),
                self.valid(from as int),
                Dom::selector_shape_ok(*selector),
                i <= selector.combinators.len(),
                candidates@.no_duplicates(),
                forall|m: NodeId| #[trigger] candidates@.contains(m) <==> self.stage(from as int, *selector, i as int).contains(m as int),
                forall|m: NodeId| #[trigger] candidates@.contains(m) ==> self.parent_of(m as int) is Some,
            decreases selector.combinators.len() - i,
        {
            let comb = selector.combinators[i];
            let simple = &selector.inner[i + 1];
            let mut next: Vec<NodeId> = Vec::new();
            let mut q: usize = 0;
            while q < candidates.len()
                invariant
                    self.wf(),
                    q <= candidates.len(),
                    next@.no_duplicates(),
                    forall|m: NodeId| #[trigger] candidates@.contains(m) <==> self.stage(from as int, *selector, i as int).contains(m as int),
                    forall|m: NodeId| #[trigger] candidates@.contains(m) ==> self.parent_of(m as int) is Some,
                    forall|m: NodeId| #[trigger] next@.contains(m) <==> (self.valid(m as int) && self.node_matches(m as int, *simple)
                        && exists|t: int| 0 <= t < q && self.related(comb, #[trigger] candidates@[t] as int, m as int)),
                    forall|m: NodeId| #[trigger] next@.contains(m) ==> self.parent_of(m as int) is Some,
                decreases candidates.len() - q,
            {
                let c = candidates[q];
                proof {
                    assert(candidates@.contains(c));
                }
                let found = self.step(c, comb, simple);
                let ghost before = next@;
                push_new(&mut next, &found);
                proof {
                    assert forall|m: NodeId| #[trigger] next@.contains(m) <==> (self.valid(m as int) && self.node_matches(m as int, *simple)
                        && exists|t: int| 0 <= t < q + 1 && self.related(comb, #[trigger] candidates@[t] as int, m as int)) by {
                        if self.valid(m as int) && self.node_matches(m as int, *simple) && exists|t: int| 0 <= t < q + 1 && self.related(comb, #[trigger] candidates@[t] as int, m as int) {
                            let t = choose|t: int| 0 <= t < q + 1 && self.related(comb, #[trigger] candidates@[t] as int, m as int);
                            if t < q {
                                assert(before.contains(m));
                            } else {
                                assert(found@.contains(m));
                            }
                        }
                        if found@.contains(m) {
                            assert(self.related(comb, candidates@[q as int] as int, m as int));
                        }
                    }
                    assert forall|m: NodeId| #[trigger] next@.contains(m) implies self.parent_of(m as int) is Some by {
                        if !before.contains(m) {
                            assert(found@.contains(m));
                        }
                    }
                }
                q = q + 1;
            }
            proof {
                let prev = self.stage(from as int, *selector, i as int);
                assert(self.stage(from as int, *selector, i + 1) == Set::new(
                    |m: int|
                        0 <= m < self.nodes.len() && self.node_matches(m, selector.inner[i + 1]) && exists|c: int|
                            #[trigger] prev.contains(c) && self.related(selector.combinators[i as int], c, m),
                ));
                assert forall|m: NodeId| #[trigger] next@.contains(m) <==> self.stage(from as int, *selector, i + 1).contains(m as int) by {
                    if next@.contains(m) {
                        let t = choose|t: int| 0 <= t < q && self.related(comb, #[trigger] candidates@[t] as int, m as int);
                        let c = candidates@[t];
                        assert(candidates@.contains(c));
                        assert(prev.contains(c as int));
                    }
                    if self.stage(from as int, *selector, i + 1).contains(m as int) {
                        let c = choose|c: int| #[trigger] prev.contains(c) && self.related(comb, c, m as int);
                        assert(c >= 0);
                        assert(candidates@.contains(c as NodeId));
                        let t = choose|t: int| 0 <= t < candidates@.len() && candidates@[t] == c as NodeId;
                        assert(self.related(comb, candidates@[t] as int, m as int));
                    }
                }
            }
            candidates = next;
            i = i + 1;
        }
        Ok(candidates)
    }

    /// The nodes of the document that the selector text selects (see
    /// `parse_selector` and `select`).
    pub fn query_select(&self, query: &str) -> (r: Result<Vec<NodeId>, Error>)
        requires
            self.wf(),
        ensures
            r is Err <==> selector_of(query@) is None,
            r matches Err(e) ==> e == Error::SelectorParsing,
            r matches Ok(v) ==> v@.no_duplicates() && exists|sel: ComplexSelector|
                selector_of(query@) == Some((sel.inner@.map_values(|x: Selector| x.model()), sel.combinators@))
                && forall|m: NodeId| #[trigger] v@.contains(m) <==> self.selects(self.root as int, sel, m as int),
    {
        let selector = match parse_selector(query) {
            Ok(sel) => sel,
            Err(e) => {
                return Err(e);
            },
        };
        match self.select(self.root, &selector) {
            Ok(v) => Ok(v),
            Err(e) => Err(e),
        }
    }
}

} // verus!
