//! Three small verified data structures: an ordered binary search tree,
//! a singly linked list, and a sieve of Eratosthenes.

pub mod binary_search_tree;
pub mod sieve_of_eratosthenes;
pub mod single_linked_list;
