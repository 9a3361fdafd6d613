//! Immutable, history-independent maps, sets and lists built on geometric
//! search trees (G-trees), with their contracts proved by Verus.

pub mod binary;
pub mod list;
pub mod map;
pub mod rank;
pub mod set;
pub mod tree;

pub use list::GList;
pub use map::{GMap, Options};
pub use rank::{hash, hash_utf16, hashed, hashed_by, random, Rank};
pub use set::GSet;
pub use tree::{ArrayItems, Entry, Items, Node, Tree, Value};
