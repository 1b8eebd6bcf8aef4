//! Phylogenetic-diversity summaries over rooted, edge-weighted binary trees.
//!
//! Given a tree whose leaves are labelled taxa and whose edges carry
//! non-negative integer weights, the engine selects, for every subset size
//! `k`, a set of `k` leaves minimizing or maximizing the total weight of the
//! subtree induced by the set together with the root, and reports the value,
//! the induced edge count and a witness set. It also tracks the extremal
//! normalized diversity (diversity over induced edge count, an exact
//! rational), the best normalized value over all sizes of at least three,
//! and the average diversity over all `k`-subsets.
//!
//! Trees live in [`tree`], the extremal recurrence in [`dp`], binomial
//! coefficients and the average recurrence in [`combin`], and the
//! precomputed query engine in [`engine`].

pub mod combin;
pub mod dp;
pub mod engine;
pub mod tree;

pub use dp::binary_splits;
pub use dp::Extremum;
pub use engine::TreePD;
pub use tree::binarize_tree;
pub use tree::Node;
pub use tree::Tree;
