pub mod heap;
pub mod sampling;

pub use sampling::UnstableNode;

use vstd::prelude::*;

verus! {

/// A sampling tree over the default incremental-delta node strategy.
pub type SimpleSamplingTree<C> = sampling::Tree<sampling::UnstableNode<C>>;

} // verus!
