//! A compressed, ordered set of 64-bit integers.
//!
//! Bit numbers are stored in a radix tree: each level of the tree consumes a
//! fixed group of bits of the number (6 bits at the leaves, 8 bits at every
//! level above).  A node keeps, per digit, either a materialized entry (a raw
//! 64-bit leaf word or a child node) or a constant-size "run" marker that
//! stands for a fully saturated sub-range.  Membership tests, insertion and
//! removal are near-constant time, and iteration is ascending and lazy.

pub mod addr;
pub mod bitvec64;
pub mod bitvec256;
pub mod key;
pub mod node;
pub mod iter;
pub mod bitfoo;
pub mod bitfoovec;

pub use addr::Addr;
pub use bitvec64::{BitVec64, BitVec64Iterator};
pub use bitvec256::{BitVec256, BitVec256Iterator};
pub use key::{KeyState, KeyIndex, KeyIndexIterator};
pub use node::{Content, Node};
pub use iter::NodeIterator;
pub use bitfoo::BitFoo;
pub use bitfoovec::BitFooVec;
