pub mod allocator;
pub mod autoscaler;
pub mod controller;
pub mod filters;
pub mod groups;
pub mod initializer;
pub mod messages;
pub mod minting;
pub mod model;
pub mod names;
pub mod node_set;
pub mod observations;
pub mod pool;
pub mod rebalancer;
pub mod reconciler;
pub mod reset;
pub mod resolver;
pub mod shard_table;
pub mod types;
