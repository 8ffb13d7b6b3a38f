//! Progress tracking for nested dataflow scopes: timestamps and path summaries,
//! the refinement between a scope's clock and its parent's, pointstamp counting,
//! and reachability through a possibly cyclic graph of ports.

pub mod timestamp;
pub mod nested;
pub mod location;
pub mod pointstamp_counter;
pub mod reachability;
pub mod subgraph;
pub mod product;
pub mod duration;
