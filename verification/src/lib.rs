//! Three classic generic containers, each specified and verified against a
//! sequence model: a binary heap ordered by a pluggable comparator, a
//! forward-only singly linked list, and a doubly linked list backed by an
//! index arena that supports constant-time operations at both ends and
//! indexed insertion and lookup.

pub mod doubly_linked_list;
pub mod heap;
pub mod singly_linked_list;
