//! The cascade: which declaration applies to a node for a property, and the
//! pass that attaches every stylesheet's declarations to the nodes.

use vstd::prelude::*;

use crate::dom::{lemma_same_tree_wf, Dom};
use crate::select::lemma_same_tree_stage;
use crate::error::Error;
use crate::node::{AppliedStyle, Node, NodeId};
use crate::stylesheet::{Origin, PropertyValue, Rule, Specificity, Stylesheet, Value};
use crate::text::str_eq;

verus! {

/// The properties whose value a node takes from its parent when it has no
/// declaration of its own.
pub open spec fn inheritable(key: Seq<char>) -> bool {
    key == "azimuth"@
        || key == "border-collapse"@
        || key == "border-spacing"@
        || key == "caption-side"@
        || key == "color"@
        || key == "cursor"@
        || key == "direction"@
        || key == "elevation"@
        || key == "empty-cells"@
        || key == "font-family"@
        || key == "font-size"@
        || key == "font-style"@
        || key == "font-variant"@
        || key == "font-weight"@
        || key == "font"@
        || key == "letter-spacing"@
        || key == "line-height"@
        || key == "list-style-image"@
        || key == "list-style-position"@
        || key == "list-style-type"@
        || key == "list-style"@
        || key == "orphans"@
        || key == "pitch-range"@
        || key == "pitch"@
        || key == "quotes"@
        || key == "richness"@
        || key == "speak-header"@
        || key == "speak-numeral"@
        || key == "speak-punctuation"@
        || key == "speak"@
        || key == "speech-rate"@
        || key == "stress"@
        || key == "text-align"@
        || key == "text-indent"@
        || key == "text-transform"@
        || key == "visibility"@
        || key == "voice-family"@
        || key == "volume"@
        || key == "white-space"@
        || key == "widows"@
        || key == "word-spacing"@
}

pub fn is_inheritable(key: &str) -> (r: bool)
    ensures
        r == inheritable(key@),
{
    str_eq(key, "azimuth")
        || str_eq(key, "border-collapse")
        || str_eq(key, "border-spacing")
        || str_eq(key, "caption-side")
        || str_eq(key, "color")
        || str_eq(key, "cursor")
        || str_eq(key, "direction")
        || str_eq(key, "elevation")
        || str_eq(key, "empty-cells")
        || str_eq(key, "font-family")
        || str_eq(key, "font-size")
        || str_eq(key, "font-style")
        || str_eq(key, "font-variant")
        || str_eq(key, "font-weight")
        || str_eq(key, "font")
        || str_eq(key, "letter-spacing")
        || str_eq(key, "line-height")
        || str_eq(key, "list-style-image")
        || str_eq(key, "list-style-position")
        || str_eq(key, "list-style-type")
        || str_eq(key, "list-style")
        || str_eq(key, "orphans")
        || str_eq(key, "pitch-range")
        || str_eq(key, "pitch")
        || str_eq(key, "quotes")
        || str_eq(key, "richness")
        || str_eq(key, "speak-header")
        || str_eq(key, "speak-numeral")
        || str_eq(key, "speak-punctuation")
        || str_eq(key, "speak")
        || str_eq(key, "speech-rate")
        || str_eq(key, "stress")
        || str_eq(key, "text-align")
        || str_eq(key, "text-indent")
        || str_eq(key, "text-transform")
        || str_eq(key, "visibility")
        || str_eq(key, "voice-family")
        || str_eq(key, "volume")
        || str_eq(key, "white-space")
        || str_eq(key, "widows")
        || str_eq(key, "word-spacing")
}

/// The cascade tier of a declaration (see `Origin::tier`).
pub open spec fn tier_of(s: AppliedStyle) -> nat {
    s.origin.tier(s.value.important)
}

/// Among the first `n` declarations, the one at `i` wins for `key`: it has
/// the highest tier, then the highest specificity within that tier, and no
/// earlier declaration ties with it on both.
pub open spec fn wins_within(styles: Seq<AppliedStyle>, key: Seq<char>, n: int, i: int) -> bool {
    &&& 0 <= i < n <= styles.len()
    &&& styles[i].key@ == key
    &&& forall|j: int|
        0 <= j < n && #[trigger] styles[j].key@ == key ==> tier_of(styles[j]) <= tier_of(styles[i])
    &&& forall|j: int|
        0 <= j < n && #[trigger] styles[j].key@ == key && tier_of(styles[j]) == tier_of(styles[i])
            ==> styles[j].rule_specificity.spec_le(styles[i].rule_specificity)
    &&& forall|j: int|
        0 <= j < i && #[trigger] styles[j].key@ == key && tier_of(styles[j]) == tier_of(styles[i])
            ==> styles[j].rule_specificity != styles[i].rule_specificity
}

pub open spec fn is_winner(styles: Seq<AppliedStyle>, key: Seq<char>, i: int) -> bool {
    wins_within(styles, key, styles.len() as int, i)
}

/// The declaration that the cascade picks for `key` among `styles`, if any
/// declares it.
pub open spec fn winner(styles: Seq<AppliedStyle>, key: Seq<char>) -> Option<AppliedStyle> {
    if exists|i: int| is_winner(styles, key, i) {
        Some(styles[choose|i: int| is_winner(styles, key, i)])
    } else {
        None
    }
}

/// At most one declaration wins.
pub proof fn lemma_winner_unique(styles: Seq<AppliedStyle>, key: Seq<char>, i: int, j: int)
    requires
        is_winner(styles, key, i),
        is_winner(styles, key, j),
    ensures
        i == j,
{
    assert(styles[j].key@ == key);
    assert(styles[i].key@ == key);
    if i < j {
        assert(styles[i].rule_specificity != styles[j].rule_specificity);
    }
    if j < i {
        assert(styles[j].rule_specificity != styles[i].rule_specificity);
    }
}

/// The winner's place in `styles`.
pub proof fn lemma_winner_at(styles: Seq<AppliedStyle>, key: Seq<char>, i: int)
    requires
        is_winner(styles, key, i),
    ensures
        winner(styles, key) == Some(styles[i]),
{
    let c = choose|c: int| is_winner(styles, key, c);
    lemma_winner_unique(styles, key, i, c);
}

impl Dom {
    /// The declaration that applies to `node` for `key`: the cascade winner
    /// among the node's own declarations, else, for an inheritable property,
    /// what applies to its parent; a root without one yields `None`.
    pub open spec fn resolved(&self, node: int, key: Seq<char>) -> Option<AppliedStyle>
        decreases self.rank_of(node),
    {
        if 0 <= node < self.nodes.len() {
            match winner(self.nodes[node].applied_styles@, key) {
                Some(s) => Some(s),
                None => if inheritable(key) {
                    match self.parent_of(node) {
                        Some(p) => if self.ranked_below(p as int, node) {
                            self.resolved(p as int, key)
                        } else {
                            None
                        },
                        None => None,
                    }
                } else {
                    None
                },
            }
        } else {
            None
        }
    }

    /// Index of the cascade winner for `key` among the node's own declarations.
    fn own_winner(&self, node: NodeId, key: &str) -> (r: Option<usize>)
        requires
            self.valid(node as int),
        ensures
            match r {
                Some(i) => is_winner(self.nodes[node as int].applied_styles@, key@, i as int),
                None => winner(self.nodes[node as int].applied_styles@, key@) is None,
            },
    {
        let styles = &self.nodes[node].applied_styles;
        let mut best: Option<usize> = None;
        let mut i: usize = 0;
        while i < styles.len()
            invariant
                i <= styles.len(),
                match best {
                    Some(b) => wins_within(styles@, key@, i as int, b as int),
                    None => forall|j: int| 0 <= j < i ==> #[trigger] styles@[j].key@ != key@,
                },
            decreases styles.len() - i,
        {
            let s = &styles[i];
            if str_eq(s.key.as_str(), key) {
                let t = s.origin.value(s.value.important);
                match best {
                    None => {
                        best = Some(i);
                    },
                    Some(b) => {
                        let w = &styles[b];
                        let tb = w.origin.value(w.value.important);
                        if t > tb || (t == tb && !s.rule_specificity.at_most(&w.rule_specificity)) {
                            best = Some(i);
                        }
                    },
                }
            }
            i = i + 1;
        }
        match best {
            Some(b) => Some(b),
            None => {
                proof {
                    if exists|i: int| is_winner(styles@, key@, i) {
                        let c = choose|i: int| is_winner(styles@, key@, i);
                        assert(styles@[c].key@ == key@);
                    }
                }
                None
            },
        }
    }

    /// The declaration that applies to `node` for `key` (see `resolved`).
    pub fn ask_style(&self, node: NodeId, key: &str) -> (r: Option<AppliedStyle>)
        requires
            self.wf(),
            self.valid(node as int),
        ensures
            r == self.resolved(node as int, key@),
        decreases self.rank_of(node as int),
    {
        match self.own_winner(node, key) {
            Some(i) => {
                proof {
                    lemma_winner_at(self.nodes[node as int].applied_styles@, key@, i as int);
                }
                Some(self.nodes[node].applied_styles[i].clone())
            },
            None => {
                if !is_inheritable(key) {
                    return None;
                }
                match self.nodes[node].parent {
                    Some(p) => {
                        proof {
                            assert(self.node_wf(node as int));
                        }
                        self.ask_style(p, key)
                    },
                    None => None,
                }
            },
        }
    }

    /// The value that applies for `key`, else the one for `fallback_key`, else
    /// `default_value`.
    pub fn get_style(&self, node: NodeId, key: &str, fallback_key: &str, default_value: &Value) -> (r: Value)
        requires
            self.wf(),
            self.valid(node as int),
        ensures
            r == match self.resolved(node as int, key@) {
                Some(s) => s.value.value,
                None => match self.resolved(node as int, fallback_key@) {
                    Some(s) => s.value.value,
                    None => *default_value,
                },
            },
    {
        if let Some(s) = self.ask_style(node, key) {
            return s.value.value;
        }
        if let Some(s) = self.ask_style(node, fallback_key) {
            return s.value.value;
        }
        default_value.clone()
    }
}

/// The declarations `props` as the cascade attaches them, with one origin and specificity.
pub open spec fn applied_of(props: Seq<(String, PropertyValue)>, origin: Origin, sp: Specificity) -> Seq<
    AppliedStyle,
> {
    props.map_values(
        |p: (String, PropertyValue)|
            AppliedStyle { key: p.0, value: p.1, origin: origin, rule_specificity: sp },
    )
}

impl Dom {
    /// What one rule attaches to node `n`: its declarations if its selector
    /// selects `n` below the root, else nothing.
    pub open spec fn rule_styles(&self, origin: Origin, rule: Rule, n: int) -> Seq<AppliedStyle> {
        if self.selects(self.root as int, rule.selector, n) {
            applied_of(rule.props@, origin, rule.selector.spec_specificity())
        } else {
            Seq::empty()
        }
    }

    /// What a list of rules attaches to node `n`, rule after rule.
    pub open spec fn rules_styles(&self, origin: Origin, rules: Seq<Rule>, n: int) -> Seq<AppliedStyle>
        decreases rules.len(),
    {
        if rules.len() == 0 {
            Seq::empty()
        } else {
            self.rules_styles(origin, rules.drop_last(), n) + self.rule_styles(origin, rules.last(), n)
        }
    }

    /// What a list of stylesheets attaches to node `n`, sheet after sheet.
    pub open spec fn sheets_styles(&self, sheets: Seq<Stylesheet>, n: int) -> Seq<AppliedStyle>
        decreases sheets.len(),
    {
        if sheets.len() == 0 {
            Seq::empty()
        } else {
            self.sheets_styles(sheets.drop_last(), n) + self.rules_styles(
                sheets.last().origin,
                sheets.last().rules@,
                n,
            )
        }
    }

    /// The declarations a full cascade pass attaches to node `n`: those of the
    /// registered stylesheets in registration order, then the node's inline
    /// declarations as author declarations of inline specificity.
    pub open spec fn cascade_styles(&self, n: int) -> Seq<AppliedStyle> {
        self.sheets_styles(self.stylesheets@, n) + applied_of(
            self.nodes[n].inline_styles@,
            Origin::Author,
            Specificity(1, 0, 0, 0),
        )
    }

    /// Every registered rule has a selector that `select` accepts.
    pub open spec fn sheets_ok(&self) -> bool {
        forall|s: int, r: int|
            0 <= s < self.stylesheets.len() && 0 <= r < self.stylesheets[s].rules.len()
                ==> Dom::selector_shape_ok(#[trigger] self.stylesheets[s].rules[r].selector)
    }

    /// `new` is `old` after a full cascade pass.
    pub open spec fn refreshed(old: &Dom, new: &Dom) -> bool {
        &&& new.same_tree(old)
        &&& forall|n: int|
            0 <= n < new.nodes.len() ==> (#[trigger] new.nodes[n]).applied_styles@
                == old.cascade_styles(n)
    }
}

/// Appends `props` to the declarations of node `n`, with one origin and specificity.
fn attach(
    nodes: &mut Vec<Node>,
    n: NodeId,
    props: &Vec<(String, PropertyValue)>,
    origin: Origin,
    sp: Specificity,
)
    requires
        n < old(nodes).len(),
    ensures
        final(nodes).len() == old(nodes).len(),
        final(nodes)[n as int].applied_styles@ == old(nodes)[n as int].applied_styles@ + applied_of(
            props@,
            origin,
            sp,
        ),
        final(nodes)[n as int] == (Node {
            applied_styles: final(nodes)[n as int].applied_styles,
            ..old(nodes)[n as int]
        }),
        forall|i: int| 0 <= i < old(nodes).len() && i != n ==> #[trigger] final(nodes)[i] == old(nodes)[i],
{
    let mut k: usize = 0;
    while k < props.len()
        invariant
            n < nodes.len(),
            nodes.len() == old(nodes).len(),
            k <= props.len(),
            nodes[n as int].applied_styles@ == old(nodes)[n as int].applied_styles@ + applied_of(
                props@.take(k as int),
                origin,
                sp,
            ),
            nodes[n as int] == (Node { applied_styles: nodes[n as int].applied_styles, ..old(nodes)[n as int] }),
            forall|i: int| 0 <= i < old(nodes).len() && i != n ==> #[trigger] nodes[i] == old(nodes)[i],
        decreases props.len() - k,
    {
        let style = AppliedStyle {
            key: props[k].0.clone(),
            value: props[k].1.clone(),
            origin,
            rule_specificity: sp,
        };
        nodes[n].applied_styles.push(style);
        proof {
            assert(applied_of(props@.take(k as int + 1), origin, sp) =~= applied_of(
                props@.take(k as int),
                origin,
                sp,
            ).push(style));
        }
        k = k + 1;
    }
    proof {
        assert(props@.take(k as int) =~= props@);
    }
}

/// Appends the inline declarations of node `n` to its declarations, as
/// author declarations of inline specificity.
fn attach_inline(nodes: &mut Vec<Node>, n: NodeId)
    requires
        n < old(nodes).len(),
    ensures
        final(nodes).len() == old(nodes).len(),
        final(nodes)[n as int].applied_styles@ == old(nodes)[n as int].applied_styles@ + applied_of(
            old(nodes)[n as int].inline_styles@,
            Origin::Author,
            Specificity(1, 0, 0, 0),
        ),
        final(nodes)[n as int] == (Node {
            applied_styles: final(nodes)[n as int].applied_styles,
            ..old(nodes)[n as int]
        }),
        forall|i: int| 0 <= i < old(nodes).len() && i != n ==> #[trigger] final(nodes)[i] == old(nodes)[i],
{
    let ghost props = old(nodes)[n as int].inline_styles@;
    let mut k: usize = 0;
    while k < nodes[n].inline_styles.len()
        invariant
            n < nodes.len(),
            nodes.len() == old(nodes).len(),
            nodes[n as int].inline_styles@ == props,
            k <= props.len(),
            nodes[n as int].applied_styles@ == old(nodes)[n as int].applied_styles@ + applied_of(
                props.take(k as int),
                Origin::Author,
                Specificity(1, 0, 0, 0),
            ),
            nodes[n as int] == (Node { applied_styles: nodes[n as int].applied_styles, ..old(nodes)[n as int] }),
            forall|i: int| 0 <= i < old(nodes).len() && i != n ==> #[trigger] nodes[i] == old(nodes)[i],
        decreases props.len() - k,
    {
        let style = AppliedStyle {
            key: nodes[n].inline_styles[k].0.clone(),
            value: nodes[n].inline_styles[k].1.clone(),
            origin: Origin::Author,
            rule_specificity: Specificity::inline(),
        };
        nodes[n].applied_styles.push(style);
        proof {
            assert(applied_of(props.take(k as int + 1), Origin::Author, Specificity(1, 0, 0, 0)) =~= applied_of(
                props.take(k as int),
                Origin::Author,
                Specificity(1, 0, 0, 0),
            ).push(style));
        }
        k = k + 1;
    }
    proof {
        assert(props.take(k as int) =~= props);
    }
}

impl Dom {
    /// Checks every registered rule's selector, in registration order.
    fn check_sheets(&self) -> (r: Result<(), Error>)
        ensures
            r is Ok <==> self.sheets_ok(),
            r matches Err(e) ==> e is Unreachable,
    {
        let mut s: usize = 0;
        while s < self.stylesheets.len()
            invariant
                s <= self.stylesheets.len(),
                forall|s2: int, r2: int|
                    0 <= s2 < s && 0 <= r2 < self.stylesheets[s2].rules.len()
                        ==> Dom::selector_shape_ok(#[trigger] self.stylesheets[s2].rules[r2].selector),
            decreases self.stylesheets.len() - s,
        {
            let mut r: usize = 0;
            while r < self.stylesheets[s].rules.len()
                invariant
                    s < self.stylesheets.len(),
                    r <= self.stylesheets[s as int].rules.len(),
                    forall|s2: int, r2: int|
                        0 <= s2 < s && 0 <= r2 < self.stylesheets[s2].rules.len()
                            ==> Dom::selector_shape_ok(#[trigger] self.stylesheets[s2].rules[r2].selector),
                    forall|r2: int|
                        0 <= r2 < r ==> Dom::selector_shape_ok(#[trigger] self.stylesheets[s as int].rules[r2].selector),
                decreases self.stylesheets[s as int].rules.len() - r,
            {
                if let Err(e) = Dom::check_shape(&self.stylesheets[s].rules[r].selector) {
                    return Err(e);
                }
                r = r + 1;
            }
            s = s + 1;
        }
        Ok(())
    }

    /// Recomputes every node's declarations from the registered stylesheets
    /// and the inline declarations (see `cascade_styles`). A rule whose
    /// selector `select` refuses makes the whole pass fail before any change.
    pub fn refresh_styles(&mut self) -> (r: Result<(), Error>)
        requires
            old(self).wf(),
        ensures
            final(self).wf(),
            r is Ok <==> old(self).sheets_ok(),
            r is Ok ==> Dom::refreshed(old(self), final(self)),
            r is Err ==> *final(self) == *old(self),
            r matches Err(e) ==> e is Unreachable,
    {
        if let Err(e) = self.check_sheets() {
            return Err(e);
        }
        let ghost o = *self;
        let mut n: usize = 0;
        while n < self.nodes.len()
            invariant
                o.wf(),
                self.same_tree(&o),
                n <= self.nodes.len(),
                forall|i: int| 0 <= i < n ==> (#[trigger] self.nodes[i]).applied_styles@.len() == 0,
            decreases self.nodes.len() - n,
        {
            self.nodes[n].applied_styles.clear();
            n = n + 1;
        }
        let mut s: usize = 0;
        while s < self.stylesheets.len()
            invariant
                o.wf(),
                o.sheets_ok(),
                self.same_tree(&o),
                s <= self.stylesheets.len(),
                forall|i: int| 0 <= i < self.nodes.len() ==> (#[trigger] self.nodes[i]).applied_styles@ == o.sheets_styles(o.stylesheets@.take(s as int), i),
            decreases self.stylesheets.len() - s,
        {
            let ghost sheet = o.stylesheets[s as int];
            let mut r: usize = 0;
            while r < self.stylesheets[s].rules.len()
                invariant
                    o.wf(),
                    o.sheets_ok(),
                    self.same_tree(&o),
                    s < self.stylesheets.len(),
                    sheet == self.stylesheets[s as int],
                    r <= sheet.rules.len(),
                    forall|i: int| 0 <= i < self.nodes.len() ==> (#[trigger] self.nodes[i]).applied_styles@ == o.sheets_styles(o.stylesheets@.take(s as int), i)
                        + o.rules_styles(sheet.origin, sheet.rules@.take(r as int), i),
                decreases sheet.rules.len() - r,
            {
                proof {
                    lemma_same_tree_wf(&o, self);
                    assert(Dom::selector_shape_ok(self.stylesheets[s as int].rules[r as int].selector));
                }
                let ghost before = *self;
                let selected = match self.select(self.root, &self.stylesheets[s].rules[r].selector) {
                    Ok(v) => v,
                    Err(e) => return Err(e),
                };
                let sp = self.stylesheets[s].rules[r].selector.specificity();
                let origin = self.stylesheets[s].origin;
                let ghost rule = sheet.rules[r as int];
                proof {
                    lemma_same_tree_stage(&o, self, o.root as int, rule.selector, rule.selector.inner.len() - 1);
                }
                let mut q: usize = 0;
                while q < selected.len()
                    invariant
                        self.same_tree(&o),
                        s < self.stylesheets.len(),
                        sheet == self.stylesheets[s as int],
                        r < sheet.rules.len(),
                        rule == sheet.rules[r as int],
                        origin == sheet.origin,
                        sp == rule.selector.spec_specificity(),
                        q <= selected.len(),
                        selected@.no_duplicates(),
                        forall|m: NodeId| #[trigger] selected@.contains(m) ==> m < self.nodes.len(),
                        forall|i: int| 0 <= i < self.nodes.len() ==> (#[trigger] self.nodes[i]).applied_styles@ == before.nodes[i].applied_styles@
                            + (if selected@.take(q as int).contains(i as NodeId) {
                                applied_of(rule.props@, origin, sp)
                            } else {
                                Seq::empty()
                            }),
                    decreases selected.len() - q,
                {
                    let m = selected[q];
                    proof {
                        assert(selected@.contains(m));
                        assert(selected@.take(q as int + 1) =~= selected@.take(q as int).push(m));
                        assert(!selected@.take(q as int).contains(m));
                    }
                    let ghost mid = *self;
                    attach(&mut self.nodes, m, &self.stylesheets[s].rules[r].props, origin, sp);
                    proof {
                        assert forall|i: int| 0 <= i < self.nodes.len() implies (#[trigger] self.nodes[i]).applied_styles@ == before.nodes[i].applied_styles@
                            + (if selected@.take(q as int + 1).contains(i as NodeId) {
                                applied_of(rule.props@, origin, sp)
                            } else {
                                Seq::empty()
                            }) by {
                            assert(mid.nodes[i].applied_styles@ == before.nodes[i].applied_styles@
                                + (if selected@.take(q as int).contains(i as NodeId) {
                                    applied_of(rule.props@, origin, sp)
                                } else {
                                    Seq::empty()
                                }));
                            if selected@.take(q as int + 1).contains(i as NodeId) {
                                if i != m {
                                    let t = choose|t: int| 0 <= t < q + 1 && #[trigger] selected@.take(q as int + 1)[t] == i as NodeId;
                                    assert(selected@.take(q as int)[t] == i as NodeId);
                                }
                            } else {
                                assert(i != m as int) by {
                                    assert(selected@.take(q as int + 1)[q as int] == m);
                                }
                                if selected@.take(q as int).contains(i as NodeId) {
                                    let t = choose|t: int| 0 <= t < q && #[trigger] selected@.take(q as int)[t] == i as NodeId;
                                    assert(selected@.take(q as int + 1)[t] == i as NodeId);
                                }
                            }
                            if i == m {
                                assert(before.nodes[i].applied_styles@ + applied_of(rule.props@, origin, sp) =~= mid.nodes[i].applied_styles@ + applied_of(rule.props@, origin, sp));
                            } else {
                                assert(self.nodes[i] == mid.nodes[i]);
                            }
                        }
                        assert forall|i: int| 0 <= i < self.nodes.len() implies #[trigger] self.nodes[i].node_type == o.nodes[i].node_type
                            && self.nodes[i].parent == o.nodes[i].parent && self.nodes[i].children == o.nodes[i].children
                            && self.nodes[i].inline_styles == o.nodes[i].inline_styles by {
                            assert(mid.nodes[i].node_type == o.nodes[i].node_type);
                        }
                    }
                    q = q + 1;
                }
                proof {
                    assert(selected@.take(q as int) =~= selected@);
                    assert(sheet.rules@.take(r as int + 1).drop_last() =~= sheet.rules@.take(r as int));
                    assert forall|i: int| 0 <= i < self.nodes.len() implies (#[trigger] self.nodes[i]).applied_styles@ == o.sheets_styles(o.stylesheets@.take(s as int), i)
                        + o.rules_styles(sheet.origin, sheet.rules@.take(r as int + 1), i) by {
                        assert(selected@.contains(i as NodeId) == before.selects(before.root as int, rule.selector, i));
                        assert(o.rule_styles(sheet.origin, rule, i) == (if selected@.contains(i as NodeId) {
                            applied_of(rule.props@, origin, sp)
                        } else {
                            Seq::empty()
                        }));
                        assert(o.sheets_styles(o.stylesheets@.take(s as int), i)
                            + o.rules_styles(sheet.origin, sheet.rules@.take(r as int + 1), i) =~= before.nodes[i].applied_styles@ + o.rule_styles(sheet.origin, rule, i));
                    }
                }
                r = r + 1;
            }
            proof {
                assert(sheet.rules@.take(r as int) =~= sheet.rules@);
                assert(o.stylesheets@.take(s as int + 1).drop_last() =~= o.stylesheets@.take(s as int));
                assert forall|i: int| 0 <= i < self.nodes.len() implies (#[trigger] self.nodes[i]).applied_styles@ == o.sheets_styles(o.stylesheets@.take(s as int + 1), i) by {
                }
            }
            s = s + 1;
        }
        proof {
            assert(o.stylesheets@.take(s as int) =~= o.stylesheets@);
        }
        let ghost staged = *self;
        n = 0;
        while n < self.nodes.len()
            invariant
                o.wf(),
                self.same_tree(&o),
                n <= self.nodes.len(),
                self.nodes.len() == staged.nodes.len(),
                forall|i: int| 0 <= i < n ==> (#[trigger] self.nodes[i]).applied_styles@ == o.cascade_styles(i),
                forall|i: int| n <= i < self.nodes.len() ==> #[trigger] self.nodes[i] == staged.nodes[i],
                forall|i: int| 0 <= i < staged.nodes.len() ==> (#[trigger] staged.nodes[i]).applied_styles@ == o.sheets_styles(o.stylesheets@, i),
            decreases self.nodes.len() - n,
        {
            let ghost mid = *self;
            attach_inline(&mut self.nodes, n);
            proof {
                assert forall|i: int| 0 <= i < self.nodes.len() implies #[trigger] self.nodes[i].node_type == o.nodes[i].node_type
                    && self.nodes[i].parent == o.nodes[i].parent && self.nodes[i].children == o.nodes[i].children
                    && self.nodes[i].inline_styles == o.nodes[i].inline_styles by {
                    assert(mid.nodes[i].node_type == o.nodes[i].node_type);
                }
                assert(mid.nodes[n as int] == staged.nodes[n as int]);
                assert(mid.nodes[n as int].inline_styles == o.nodes[n as int].inline_styles);
            }
            n = n + 1;
        }
        proof {
            lemma_same_tree_wf(&o, self);
        }
        Ok(())
    }

    /// Registers a stylesheet after the others and runs a cascade pass.
    pub fn apply_stylesheet(&mut self, stylesheet: Stylesheet) -> (r: Result<(), Error>)
        requires
            old(self).wf(),
        ensures
            final(self).wf(),
            final(self).stylesheets@ == old(self).stylesheets@.push(stylesheet),
            r is Ok <==> final(self).sheets_ok(),
            r is Ok ==> forall|n: int|
                0 <= n < final(self).nodes.len() ==> (#[trigger] final(self).nodes[n]).applied_styles@
                    == final(self).cascade_styles(n),
            r is Ok ==> forall|n: int|
                0 <= n < final(self).nodes.len() ==> (#[trigger] final(self).nodes[n]).node_type
                    == old(self).nodes[n].node_type && final(self).nodes[n].parent == old(self).nodes[n].parent
                    && final(self).nodes[n].children == old(self).nodes[n].children
                    && final(self).nodes[n].inline_styles == old(self).nodes[n].inline_styles,
            final(self).nodes.len() == old(self).nodes.len(),
            r is Err ==> final(self).nodes == old(self).nodes,
            r matches Err(e) ==> e is Unreachable,
    {
        self.stylesheets.push(stylesheet);
        proof {
            assert forall|i: int| 0 <= i < self.nodes.len() implies #[trigger] self.node_wf(i) by {
                assert(old(self).node_wf(i));
            }
        }
        let ghost pushed = *self;
        let r = self.refresh_styles();
        proof {
            if r is Ok {
                assert forall|n: int| 0 <= n < self.nodes.len() implies (#[trigger] self.nodes[n]).applied_styles@
                    == self.cascade_styles(n) by {
                    assert(pushed.cascade_styles(n) == self.cascade_styles(n)) by {
                        lemma_cascade_same_tree(&pushed, self, n);
                    }
                }
            }
        }
        r
    }
}

/// What a cascade pass attaches depends on the tree, the stylesheets and the
/// inline declarations alone.
pub proof fn lemma_cascade_same_tree(d1: &Dom, d2: &Dom, n: int)
    requires
        d1.wf(),
        d1.same_tree(d2),
        0 <= n < d1.nodes.len(),
    ensures
        d1.cascade_styles(n) == d2.cascade_styles(n),
{
    assert forall|origin: Origin, rule: Rule| #[trigger] d1.rule_styles(origin, rule, n) == d2.rule_styles(origin, rule, n) by {
        lemma_same_tree_stage(d1, d2, d1.root as int, rule.selector, rule.selector.inner.len() - 1);
    }
    assert forall|origin: Origin, rules: Seq<Rule>| #[trigger] d1.rules_styles(origin, rules, n) == d2.rules_styles(origin, rules, n) by {
        lemma_rules_same_tree(d1, d2, origin, rules, n);
    }
    lemma_sheets_same_tree(d1, d2, d1.stylesheets@, n);
    assert(d1.nodes[n].inline_styles == d2.nodes[n].inline_styles);
}

proof fn lemma_rules_same_tree(d1: &Dom, d2: &Dom, origin: Origin, rules: Seq<Rule>, n: int)
    requires
        forall|origin: Origin, rule: Rule| #[trigger] d1.rule_styles(origin, rule, n) == d2.rule_styles(origin, rule, n),
    ensures
        d1.rules_styles(origin, rules, n) == d2.rules_styles(origin, rules, n),
    decreases rules.len(),
{
    if rules.len() > 0 {
        lemma_rules_same_tree(d1, d2, origin, rules.drop_last(), n);
        assert(d1.rule_styles(origin, rules.last(), n) == d2.rule_styles(origin, rules.last(), n));
    }
}

proof fn lemma_sheets_same_tree(d1: &Dom, d2: &Dom, sheets: Seq<Stylesheet>, n: int)
    requires
        forall|origin: Origin, rules: Seq<Rule>| #[trigger] d1.rules_styles(origin, rules, n) == d2.rules_styles(origin, rules, n),
    ensures
        d1.sheets_styles(sheets, n) == d2.sheets_styles(sheets, n),
    decreases sheets.len(),
{
    if sheets.len() > 0 {
        lemma_sheets_same_tree(d1, d2, sheets.drop_last(), n);
        assert(d1.rules_styles(sheets.last().origin, sheets.last().rules@, n) == d2.rules_styles(sheets.last().origin, sheets.last().rules@, n));
    }
}

} // verus!
