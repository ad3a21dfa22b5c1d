//! Hydration of an already-live node tree: a traversal engine that walks a
//! tree depth-first with an explicit frame stack, splices caller-built
//! replacement subtrees in place of matched elements, and repairs its cursor
//! after each splice so that traversal resumes at the right sibling.

mod engine;
mod guard;
mod order;
mod original;
mod tree;

pub use engine::{
    HydrationError, Replacer, Traversal, hydrate_children, hydrate_node, preorder_ids, replace_at,
    splice_shape,
};
pub use guard::HydrationGuard;
pub use order::{lemma_preorder_no_duplicates, lemma_preorder_forest_no_duplicates};
pub use original::OriginalChildren;
pub use tree::{Dom, Fragment, KindView, NodeData, NodeKind};
