//! A live price board for exchange trading pairs: an exact decimal price type,
//! a per-symbol price store, key dispatch and the fetch schedule of the
//! dashboard loop.

pub mod price;
pub mod store;
pub mod input;
pub mod market;
pub mod tracker;
