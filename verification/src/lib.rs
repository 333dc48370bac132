//! A persistent, versioned adaptive radix tree.
//!
//! Keys are byte sequences; interior nodes adapt their child container to
//! occupancy (four tiers), paths are compressed into per-node prefixes, and
//! every value carries a timestamp so that point-in-time lookups can read
//! older versions. Mutating operations are functional: they leave the given
//! tree untouched and return a fresh root.

pub mod art;
pub mod iter;
pub mod laws;
pub mod node;
pub mod prefix;
pub mod snapshot;
pub mod vec_array;

pub use art::{Node, NodeType, Tree, TrieError, VariableSizedKey};
pub use iter::{Iter, IterationPointer, IterState, Range, RangeEnd, RangeIterator};
pub use node::{FlatNode, LeafValue, Node256, Node48, NodeTrait, Timestamp, TwigNode};
pub use prefix::{ArrayPrefix, Prefix};
pub use snapshot::Snapshot;
pub use vec_array::VecArray;
