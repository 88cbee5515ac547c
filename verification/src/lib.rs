//! Depth-first tree traversal with a visitor pattern.
//!
//! An iterative walker descends a tree of `Visitable` nodes, keeps the
//! current root-to-node path on an explicit stack together with a value
//! accumulated along that path, and hands every visited path to a caller
//! supplied callback.  The mathematical model of a traversal lives in
//! [`tree`]: a ghost rose tree, its pre-order node sequence, and a step
//! function that the walker is proved to implement.

pub mod laws;
pub mod node;
pub mod tree;
pub mod visitable;
pub mod visiting;
pub mod walk;

pub use tree::Tree;
pub use tree::flat;
pub use tree::flat_from;
pub use node::Node;
pub use visitable::Accumulable;
pub use visitable::Visitable;
pub use visitable::Visiting;
pub use visitable::read_parameter;
pub use visitable::visit;
pub use visitable::visitor;
pub use visiting::Visitor;
