//! A randomized balanced ordered container (a treap) in map and set form,
//! together with a plain search tree and the key ordering they share.
pub mod order;
pub mod rand;
pub mod splay;
