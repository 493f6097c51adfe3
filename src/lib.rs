//! Dense, totally ordered identifiers for a replicated sequence (LSEQ).
//!
//! An [`Id`] is a path of per-level indices plus the tag of the replica that
//! minted it. A [`Node`] mints identifiers that fall strictly between two
//! given bounds, choosing at each level whether to allocate close to the low
//! or the high end of the gap.
pub mod bits;
pub mod id;
pub mod node;
pub mod random;

pub use id::{Id, IdView, NodeId};
pub use node::{Node, NodeView};
