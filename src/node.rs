//! Nodes of a document, their attributes and the declarations applied to them.

use vstd::prelude::*;
use vstd::string::*;

use crate::stylesheet::{Origin, PropertyValue, Selector, Specificity};
use crate::text::{has_token, str_eq, tokens};

verus! {

/// Index of a node in its document.
pub type NodeId = usize;

/// The value bound to `key` by the last entry that names it.
pub open spec fn lookup(entries: Seq<(String, String)>, key: Seq<char>) -> Option<Seq<char>>
    decreases entries.len(),
{
    if entries.len() == 0 {
        None
    } else if entries.last().0@ == key {
        Some(entries.last().1@)
    } else {
        lookup(entries.drop_last(), key)
    }
}

proof fn lemma_lookup_last_match(entries: Seq<(String, String)>, key: Seq<char>, i: int)
    requires
        0 <= i < entries.len(),
        entries[i].0@ == key,
        forall|j: int| i < j < entries.len() ==> entries[j].0@ != key,
    ensures
        lookup(entries, key) == Some(entries[i].1@),
    decreases entries.len(),
{
    if i < entries.len() - 1 {
        lemma_lookup_last_match(entries.drop_last(), key, i);
    }
}

proof fn lemma_lookup_none(entries: Seq<(String, String)>, key: Seq<char>)
    requires
        forall|j: int| 0 <= j < entries.len() ==> entries[j].0@ != key,
    ensures
        lookup(entries, key) is None,
    decreases entries.len(),
{
    if entries.len() > 0 {
        lemma_lookup_none(entries.drop_last(), key);
    }
}

proof fn lemma_lookup_replace(
    entries: Seq<(String, String)>,
    i: int,
    e: (String, String),
    key: Seq<char>,
)
    requires
        0 <= i < entries.len(),
        entries[i].0@ == e.0@,
        forall|j: int| i < j < entries.len() ==> entries[j].0@ != e.0@,
    ensures
        lookup(entries.update(i, e), key) == (if key == e.0@ {
            Some(e.1@)
        } else {
            lookup(entries, key)
        }),
    decreases entries.len(),
{
    let u = entries.update(i, e);
    if key == e.0@ {
        lemma_lookup_last_match(u, key, i);
    } else if i < entries.len() - 1 {
        assert(u.drop_last() =~= entries.drop_last().update(i, e));
        lemma_lookup_replace(entries.drop_last(), i, e, key);
    } else {
        assert(u.drop_last() =~= entries.drop_last());
    }
}

/// An element's attributes: each key bound to at most one value.
#[derive(Debug)]
pub struct AttrMap {
    entries: Vec<(String, String)>,
}

impl View for AttrMap {
    type V = Map<Seq<char>, Seq<char>>;

    closed spec fn view(&self) -> Map<Seq<char>, Seq<char>> {
        Map::new(|k: Seq<char>| lookup(self.entries@, k) is Some, |k: Seq<char>| lookup(self.entries@, k)->0)
    }
}

impl AttrMap {
    pub fn new() -> (r: AttrMap)
        ensures
            r@ == Map::<Seq<char>, Seq<char>>::empty(),
    {
        let r = AttrMap { entries: Vec::new() };
        proof {
            assert(r@ =~= Map::<Seq<char>, Seq<char>>::empty());
        }
        r
    }

    /// Index of the last entry with this key.
    fn position(&self, key: &str) -> (r: Option<usize>)
        ensures
            match r {
                Some(i) => i < self.entries.len() && self.entries[i as int].0@ == key@ && forall|j: int|
                    i < j < self.entries.len() ==> self.entries[j].0@ != key@,
                None => forall|j: int| 0 <= j < self.entries.len() ==> self.entries[j].0@ != key@,
            },
    {
        let mut i = self.entries.len();
        while i > 0
            invariant
                i <= self.entries.len(),
                forall|j: int| i <= j < self.entries.len() ==> self.entries[j].0@ != key@,
            decreases i,
        {
            if str_eq(self.entries[i - 1].0.as_str(), key) {
                return Some(i - 1);
            }
            i = i - 1;
        }
        None
    }

    pub fn get(&self, key: &str) -> (r: Option<&String>)
        ensures
            r is Some == self@.contains_key(key@),
            r matches Some(v) ==> v@ == self@[key@],
    {
        match self.position(key) {
            Some(i) => {
                proof {
                    lemma_lookup_last_match(self.entries@, key@, i as int);
                }
                Some(&self.entries[i].1)
            },
            None => {
                proof {
                    lemma_lookup_none(self.entries@, key@);
                }
                None
            },
        }
    }

    /// Binds `key` to `value`, replacing an earlier value.
    pub fn insert(&mut self, key: &str, value: &str)
        ensures
            final(self)@ == old(self)@.insert(key@, value@),
    {
        let k = key.to_owned();
        let v = value.to_owned();
        match self.position(key) {
            Some(i) => {
                let ghost before = self.entries@;
                self.entries.set(i, (k, v));
                proof {
                    assert forall|q: Seq<char>| #[trigger] lookup(self.entries@, q) == (if q
                        == key@ {
                        Some(value@)
                    } else {
                        lookup(before, q)
                    }) by {
                        lemma_lookup_replace(before, i as int, (k, v), q);
                    }
                    assert(self@ =~= old(self)@.insert(key@, value@));
                }
            },
            None => {
                let ghost before = self.entries@;
                self.entries.push((k, v));
                proof {
                    assert(self.entries@.drop_last() =~= before);
                    assert(self@ =~= old(self)@.insert(key@, value@));
                }
            },
        }
    }
}

/// Data of an element node: its tag and attributes.
#[derive(Debug)]
pub struct ElementData {
    pub tag: String,
    pub attrs: AttrMap,
}

/// The value of an element's attribute, if it has one.
pub open spec fn attr_of(el: ElementData, key: Seq<char>) -> Option<Seq<char>> {
    if el.attrs@.contains_key(key) {
        Some(el.attrs@[key])
    } else {
        None
    }
}

/// The element carries the class `c` among the words of its `class` attribute.
pub open spec fn has_class(el: ElementData, c: Seq<char>) -> bool {
    attr_of(el, "class"@) matches Some(v) && has_token(v, c)
}

/// A compound selector matches an element when each of its fields that is
/// present is met: the id equals the `id` attribute, the tag equals the
/// element's tag, and each listed class is one of the element's classes.
pub open spec fn selector_matches(sel: Selector, el: ElementData) -> bool {
    &&& (sel.id matches Some(id) ==> attr_of(el, "id"@) == Some(id@))
    &&& (sel.tag_name matches Some(t) ==> el.tag@ == t@)
    &&& forall|i: int| 0 <= i < sel.classes.len() ==> has_class(el, #[trigger] sel.classes[i]@)
}

impl ElementData {
    pub fn new(tag: &str, attrs: Option<AttrMap>) -> (r: ElementData)
        ensures
            r.tag@ == tag@,
            r.attrs@ == (match attrs {
                Some(a) => a@,
                None => Map::empty(),
            }),
    {
        let attrs = match attrs {
            Some(a) => a,
            None => AttrMap::new(),
        };
        ElementData { tag: tag.to_owned(), attrs }
    }

    pub fn id(&self) -> (r: Option<&String>)
        ensures
            match r {
                Some(v) => attr_of(*self, "id"@) == Some(v@),
                None => attr_of(*self, "id"@) is None,
            },
    {
        self.attrs.get("id")
    }

    /// The words of the `class` attribute (none without one).
    pub fn classes(&self) -> (r: Vec<String>)
        ensures
            forall|q: int| 0 <= q < r.len() ==> has_class(*self, #[trigger] r[q]@),
            forall|c: Seq<char>| has_class(*self, c) ==> exists|q: int| 0 <= q < r.len() && r[q]@ == c,
    {
        match self.attrs.get("class") {
            Some(v) => tokens(v.as_str()),
            None => Vec::new(),
        }
    }

    pub fn matches_selector(&self, selector: &Selector) -> (r: bool)
        ensures
            r == selector_matches(*selector, *self),
    {
        let id_ok = match &selector.id {
            None => true,
            Some(want) => match self.id() {
                Some(have) => *have == *want,
                None => false,
            },
        };
        let tag_ok = match &selector.tag_name {
            None => true,
            Some(want) => self.tag == *want,
        };
        let mine = self.classes();
        let mut classes_ok = true;
        let mut i: usize = 0;
        while i < selector.classes.len()
            invariant
                i <= selector.classes.len(),
                classes_ok == forall|k: int| 0 <= k < i ==> has_class(*self, #[trigger] selector.classes[k]@),
                forall|q: int| 0 <= q < mine.len() ==> has_class(*self, #[trigger] mine[q]@),
                forall|c: Seq<char>| has_class(*self, c) ==> exists|q: int| 0 <= q < mine.len() && mine[q]@ == c,
            decreases selector.classes.len() - i,
        {
            let want = &selector.classes[i];
            let mut found = false;
            let mut j: usize = 0;
            while j < mine.len()
                invariant
                    j <= mine.len(),
                    found == exists|q: int| 0 <= q < j && mine[q]@ == want@,
                decreases mine.len() - j,
            {
                if mine[j] == *want {
                    found = true;
                }
                j = j + 1;
            }
            proof {
                if has_class(*self, want@) {
                    let q = choose|q: int| 0 <= q < mine.len() && mine[q]@ == want@;
                    assert(mine[q]@ == want@);
                }
                if found {
                    let q = choose|q: int| 0 <= q < j && mine[q]@ == want@;
                    assert(has_class(*self, mine[q]@));
                }
            }
            classes_ok = classes_ok && found;
            i = i + 1;
        }
        id_ok && tag_ok && classes_ok
    }
}

/// The kinds of nodes of a document.
#[derive(Debug)]
pub enum NodeType {
    Text(String),
    Comment(String),
    Element(ElementData),
}

/// A declaration that the cascade attached to a node.
#[derive(Debug)]
pub struct AppliedStyle {
    pub key: String,
    pub value: PropertyValue,
    pub origin: Origin,
    pub rule_specificity: Specificity,
}

impl Clone for AppliedStyle {
    fn clone(&self) -> (r: Self)
        ensures
            r == *self,
    {
        AppliedStyle {
            key: self.key.clone(),
            value: self.value.clone(),
            origin: self.origin,
            rule_specificity: self.rule_specificity,
        }
    }
}

/// A node of a document. `parent` and `children` hold indices into the
/// document's node list.
#[derive(Debug)]
pub struct Node {
    pub node_type: NodeType,
    pub parent: Option<NodeId>,
    pub children: Vec<NodeId>,
    /// What the cascade attached on its last pass.
    pub applied_styles: Vec<AppliedStyle>,
    /// Declarations of the node's `style` attribute, as a declaration parser
    /// produced them.
    pub inline_styles: Vec<(String, PropertyValue)>,
}

impl Node {
    /// A new node without parent, children or styles.
    pub fn new(node_type: NodeType) -> (r: Node)
        ensures
            r.node_type == node_type,
            r.parent is None,
            r.children@ == Seq::<NodeId>::empty(),
            r.applied_styles@ == Seq::<AppliedStyle>::empty(),
            r.inline_styles@ == Seq::<(String, PropertyValue)>::empty(),
    {
        Node {
            node_type,
            parent: None,
            children: Vec::new(),
            applied_styles: Vec::new(),
            inline_styles: Vec::new(),
        }
    }
}

} // verus!
