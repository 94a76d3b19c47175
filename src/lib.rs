//! A document engine core: a node tree, CSS selector matching, the cascade
//! and the resolution of dimensions into terminal cells.

pub mod stylesheet;
pub mod text;
pub mod node;
pub mod error;
pub mod dom;
pub mod select;
pub mod cascade;
pub mod dimension;
pub mod laws;
pub mod outline;
pub mod css;
pub mod simply;
