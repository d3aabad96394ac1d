//! Disk usage estimation for copy-on-write filesystems by sampling physical
//! addresses and attributing them back to paths.
pub mod search_key;
pub mod sample_tree;
pub mod wire;
pub mod tree_search;
pub mod chunks;
pub mod sample;
pub mod paths;
pub mod engine;
pub mod extent_usage;
