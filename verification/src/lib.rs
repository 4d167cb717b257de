//! A probabilistically balanced ordered map: a skip list over a total order
//! of keys, supporting insertion with replace-on-duplicate, removal, point
//! lookup, forward iteration, and bounded range iteration.

pub mod iter;
pub mod laws;
pub mod order;
pub mod range;
pub mod skip;
pub mod store;
