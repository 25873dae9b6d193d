//! An ordered set kept as a skip list: a sorted chain of nodes with sparser
//! express chains threaded above it, so that search, insertion and removal
//! take an expected logarithmic number of steps without any rebalancing.

pub mod laws;
pub mod level;
pub mod list;
pub mod chain;
pub mod model;
pub mod order;
pub mod store;

pub use level::pick_level;
pub use list::iter::IntoIter;
pub use list::iter::Iter;
pub use list::List;
