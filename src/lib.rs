//! Runtime core of a declarative UI toolkit: a compiled component is a flat
//! array of item-tree nodes over one contiguous instance block, each node
//! reaching its item's behaviour through a data-only dispatch table, with a
//! per-item render-cache slot that lets a backend skip unchanged items.
use vstd::prelude::*;

pub mod base;
pub mod component;
pub mod item;
pub mod laws;
pub mod render;
pub mod tree;

verus! {

} // verus!
