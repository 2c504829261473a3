//! An AVL tree of unique, totally ordered values, kept in a slot arena and
//! linked by slot index.
//!
//! `binary_search` holds the tree and its operations. The other modules hold
//! what the contracts of the operations speak of: `order` the total order on
//! the values, `shape` the tree as a mathematical value with its rotations,
//! `sorted` search and insertion, `prune` and `without` removal, `avl` the
//! balance that the rotations keep, `breadth`
//! the order of a drain, `lists` a few facts about lists, and `laws` what
//! holds across operations.

pub mod avl;
pub mod binary_search;
pub mod breadth;
pub mod laws;
pub mod lists;
pub mod order;
pub mod prune;
pub mod shape;
pub mod sorted;
pub mod without;
