//! The randomized containers: the treap map and the set built on it.
pub mod map_laws;
pub mod rset;
pub mod rtree;

pub use rset::RSet;
pub use rtree::RTreeMap;

