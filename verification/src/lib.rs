//! A red–green syntax tree library: an immutable, structurally shared pure
//! layer carrying kinds, child offsets and cumulative text lengths, and an
//! identity-bearing syntax layer over it that answers parental and
//! positional queries and mediates copy-on-write edits.

mod delta;
mod laws;
mod model;
mod pure;
mod syntax;

pub use delta::Delta;
pub use laws::{
    law_child_offset, law_detach, law_identity_caching, law_insert,
    law_insert_detach_round_trip, law_pure_offsets, law_root_offset, law_sibling_order,
};
pub use model::{BranchV, ChildV, LeafV, NodeV};
pub use pure::{PureChild, PureChildKind, PureToken, PureTree, PureTreeData};
pub use syntax::{RedV, SyntaxChild, SyntaxForest, SyntaxToken, SyntaxTree};
