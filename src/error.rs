//! Errors of tree and selector operations.

use vstd::prelude::*;

verus! {

/// Conditions that a well-formed selector or tree never produces.
#[derive(Debug, Clone, Copy, PartialEq, Eq, Structural)]
pub enum UnreachableError {
    /// The selector's list of compound selectors is empty.
    SelectorHasNoSimpleSelectors,
    /// The selector has as many combinators as compound selectors, or more.
    SelectorHasMoreCombinatorsThanSelectors,
    /// The selector has fewer than one combinator between each two compound selectors.
    SelectorHasFewerCombinatorsThanSelectors,
    /// The node has no parent (it is a root).
    NoParent,
}

/// Errors of the tree and selector operations.
#[derive(Debug, Clone, Copy, PartialEq, Eq, Structural)]
pub enum Error {
    Unreachable(UnreachableError),
    /// Selector text that is not a selector.
    SelectorParsing,
    /// An attribute operation on a text or comment node.
    NotAnElement,
    /// An append that would break the tree: the root cannot be attached, nor
    /// a node under itself or under one of its descendants.
    CannotAppend,
}

} // verus!
