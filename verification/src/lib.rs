//! An in-memory associative container: a bucketed hash table whose buckets
//! escalate from a singly-linked chain to a balanced search tree once a
//! bucket grows large, bounding worst-case lookup cost under collisions.

pub mod avl_tree;
pub mod entries;
pub mod hash;
pub mod hashmap;
pub mod linked_list;

pub use avl_tree::AvlTree;
pub use hashmap::HashMap;
pub use linked_list::LinkedList;
