//! Properties of the cascade and of dimension resolution, proved once for all inputs.

use vstd::prelude::*;

use crate::cascade::{inheritable, is_winner, lemma_cascade_same_tree, tier_of, winner, wins_within, lemma_winner_at};
use crate::dimension::{fixed_cells, percent_cells, DimensionErrorKind};
use crate::dom::{lemma_same_tree_wf, Dom};
use crate::node::AppliedStyle;
use crate::stylesheet::{class_total, id_total, ComplexSelector, Dimension, Origin, Unit, Value};

verus! {

/// Whenever some declaration names `key`, one of them wins.
pub proof fn lemma_winner_exists(styles: Seq<AppliedStyle>, key: Seq<char>, i: int)
    requires
        0 <= i < styles.len(),
        styles[i].key@ == key,
    ensures
        winner(styles, key) is Some,
        exists|w: int| #[trigger] is_winner(styles, key, w),
{
    let w = lemma_winner_within(styles, key, styles.len() as int, i);
    assert(is_winner(styles, key, w));
}

proof fn lemma_winner_within(styles: Seq<AppliedStyle>, key: Seq<char>, n: int, i: int) -> (w: int)
    requires
        0 <= i < n <= styles.len(),
        styles[i].key@ == key,
    ensures
        wins_within(styles, key, n, w),
    decreases n,
{
    let last = n - 1;
    if i == last && forall|j: int| 0 <= j < last ==> #[trigger] styles[j].key@ != key {
        last
    } else {
        let k = if i < last {
            i
        } else {
            choose|j: int| 0 <= j < last && #[trigger] styles[j].key@ == key
        };
        let b = lemma_winner_within(styles, key, last, k);
        let s = styles[last];
        let w = styles[b];
        if s.key@ == key && (tier_of(s) > tier_of(w) || (tier_of(s) == tier_of(w)
            && !s.rule_specificity.spec_le(w.rule_specificity))) {
            assert forall|j: int|
                0 <= j < last && #[trigger] styles[j].key@ == key && tier_of(styles[j]) == tier_of(s)
                    implies styles[j].rule_specificity != s.rule_specificity by {
                if tier_of(s) == tier_of(w) {
                    assert(styles[j].rule_specificity.spec_le(w.rule_specificity));
                }
            }
            last
        } else {
            b
        }
    }
}

/// Running the cascade twice over the same stylesheets leaves every node with
/// the same declarations as running it once.
pub proof fn lemma_refresh_idempotent(d0: &Dom, d1: &Dom, d2: &Dom)
    requires
        d0.wf(),
        Dom::refreshed(d0, d1),
        Dom::refreshed(d1, d2),
    ensures
        d2.same_tree(d1),
        forall|n: int|
            0 <= n < d2.nodes.len() ==> (#[trigger] d2.nodes[n]).applied_styles@
                == d1.nodes[n].applied_styles@,
{
    lemma_same_tree_wf(d0, d1);
    assert forall|n: int| 0 <= n < d2.nodes.len() implies (#[trigger] d2.nodes[n]).applied_styles@
        == d1.nodes[n].applied_styles@ by {
        lemma_cascade_same_tree(d1, d0, n);
    }
}

/// A selector with a class (or an id) is more specific than one made of tags
/// alone.
pub proof fn lemma_class_more_specific_than_tags(a: ComplexSelector, b: ComplexSelector)
    requires
        class_total(a.inner@) >= 1,
        id_total(b.inner@) == 0,
        class_total(b.inner@) == 0,
    ensures
        b.spec_specificity().spec_lt(a.spec_specificity()),
{
}

/// Of two declarations of one property with the same origin and importance,
/// one from a rule whose selector has a class wins over one from a rule of
/// tags alone, whichever was registered first.
pub proof fn lemma_class_rule_outranks_tag_rule(
    styles: Seq<AppliedStyle>,
    key: Seq<char>,
    i: int,
    j: int,
    a: ComplexSelector,
    b: ComplexSelector,
)
    requires
        0 <= i < styles.len(),
        0 <= j < styles.len(),
        styles[i].key@ == key,
        styles[j].key@ == key,
        styles[i].origin == styles[j].origin,
        styles[i].value.important == styles[j].value.important,
        styles[i].rule_specificity == a.spec_specificity(),
        styles[j].rule_specificity == b.spec_specificity(),
        class_total(a.inner@) >= 1,
        id_total(b.inner@) == 0,
        class_total(b.inner@) == 0,
    ensures
        !is_winner(styles, key, j),
        winner(styles, key) matches Some(w) && w != styles[j],
{
    lemma_class_more_specific_than_tags(a, b);
    lemma_winner_exists(styles, key, i);
    let w = choose|w: int| #[trigger] is_winner(styles, key, w);
    lemma_winner_at(styles, key, w);
    if is_winner(styles, key, j) {
        assert(styles[i].rule_specificity.spec_le(styles[j].rule_specificity));
    }
    if styles[w] == styles[j] {
        assert(tier_of(styles[w]) >= tier_of(styles[i]));
        assert(styles[i].rule_specificity.spec_le(styles[w].rule_specificity));
    }
}

/// An important declaration of the agent's stylesheet wins over a normal
/// declaration of the author's, for the same property.
pub proof fn lemma_important_agent_outranks_author(
    styles: Seq<AppliedStyle>,
    key: Seq<char>,
    i: int,
    j: int,
)
    requires
        0 <= i < styles.len(),
        0 <= j < styles.len(),
        styles[i].key@ == key,
        styles[j].key@ == key,
        styles[i].origin == Origin::Agent,
        styles[i].value.important,
        styles[j].origin == Origin::Author,
        !styles[j].value.important,
    ensures
        !is_winner(styles, key, j),
        winner(styles, key) matches Some(w) && w != styles[j],
{
    lemma_winner_exists(styles, key, i);
    let w = choose|w: int| #[trigger] is_winner(styles, key, w);
    lemma_winner_at(styles, key, w);
    assert(tier_of(styles[i]) == 5);
    assert(tier_of(styles[j]) == 2);
}

/// A node without a declaration of an inheritable property takes what
/// applies to its parent.
pub proof fn lemma_inherits_from_parent(dom: &Dom, n: int, key: Seq<char>)
    requires
        dom.wf(),
        dom.valid(n),
        inheritable(key),
        forall|k: int| 0 <= k < dom.nodes[n].applied_styles.len() ==> (#[trigger] dom.nodes[n].applied_styles[k]).key@ != key,
        dom.parent_of(n) is Some,
    ensures
        dom.resolved(n, key) == dom.resolved(dom.parent_of(n)->0 as int, key),
{
    assert(dom.node_wf(n));
    lemma_no_winner(dom.nodes[n].applied_styles@, key);
}

/// A node without a declaration of a property that is not inheritable has
/// no value for it, whatever its ancestors declare.
pub proof fn lemma_not_inherited(dom: &Dom, n: int, key: Seq<char>)
    requires
        dom.valid(n),
        !inheritable(key),
        forall|k: int| 0 <= k < dom.nodes[n].applied_styles.len() ==> (#[trigger] dom.nodes[n].applied_styles[k]).key@ != key,
    ensures
        dom.resolved(n, key) is None,
{
    lemma_no_winner(dom.nodes[n].applied_styles@, key);
}

proof fn lemma_no_winner(styles: Seq<AppliedStyle>, key: Seq<char>)
    requires
        forall|k: int| 0 <= k < styles.len() ==> (#[trigger] styles[k]).key@ != key,
    ensures
        winner(styles, key) is None,
{
    if exists|w: int| is_winner(styles, key, w) {
        let w = choose|w: int| is_winner(styles, key, w);
        assert(styles[w].key@ != key);
    }
}

/// A percentage resolves to that share of the cells that the parent's own
/// value of the property resolves to, rounded to the nearest cell.
pub proof fn lemma_percent_of_parent(
    dom: &Dom,
    d: Dimension,
    ctx: int,
    prop: Seq<char>,
    viewport: (u16, u16),
    base: int,
)
    requires
        dom.wf(),
        dom.valid(ctx),
        d.unit == Unit::Percent,
        dom.resolved(ctx, prop) matches Some(s) && s.value.value matches Value::Dimension(pd) && if pd.unit
            == Unit::Percent {
            dom.parent_of(ctx) matches Some(g) && dom.tb_cells(pd, g as int, prop, viewport) == Ok::<
                int,
                DimensionErrorKind,
            >(base)
        } else {
            fixed_cells(pd, viewport) == Ok::<int, DimensionErrorKind>(base)
        },
    ensures
        dom.tb_cells(d, ctx, prop, viewport) == percent_cells(base, d.milli as int),
{
    assert(dom.node_wf(ctx));
}

} // verus!
