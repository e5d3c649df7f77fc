//! An AA tree: a self-balancing ordered key-value map.
//!
//! Balance is tracked by a per-node integer *level* instead of red/black
//! colors.  After every insertion the tree satisfies the binary-search-tree
//! ordering invariant and the AA level invariants, which bound its height
//! logarithmically in the number of keys.

mod laws;
mod order;
mod tree;

pub use laws::insert_all;
pub use laws::lemma_find_after_inserts;
pub use laws::lemma_find_never_inserted;
pub use laws::lemma_insert_idempotent;
pub use order::TotalOrder;
pub use tree::Node;
pub use tree::Tree;
