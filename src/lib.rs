//! An adaptive radix tree: an ordered index from byte-encodable keys to
//! values, with path-compressed inner nodes of fan-out 4, 16, 48 and 256.
//!
//! Each inner node carries an optimistic version word: readers validate it,
//! writers lock a node around a change and unlock it with a new version, and
//! a node replaced by another is unlocked as obsolete. The tree's operations
//! take `&mut self`, so one writer works at a time and a replaced node is
//! freed as it is replaced. The epoch-based reclaimer (`epoch`, `bag`)
//! defers the release of retired items for as long as a participant pinned
//! before their retirement stays pinned.

pub mod bag;
pub mod epoch;
pub mod header;
pub mod key;
pub mod node;
pub mod node4;
pub mod node16;
pub mod node48;
pub mod node256;
pub mod tree;
