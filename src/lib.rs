//! Linked sequence containers with verified contracts: a doubly linked list kept in an
//! arena of nodes, a singly linked chain of boxed nodes, and a binary tree skeleton.

pub mod binary_tree;
pub mod doubly_linked_list;
pub mod linked_list;
pub mod render;
