//! A segmented commit DAG: dense integer ids for opaque vertex names, a
//! master/draft split of the id space, segment compression of linear runs,
//! lazy resolution of unknown names through a remote protocol, and the
//! clone/pull data exchange between two instances.
pub mod add_heads;
pub mod algo;
pub mod clone;
pub mod config_spec;
pub mod error;
pub mod flush;
pub mod namedag;
pub mod parent_map;
pub mod persist;
pub mod protocol;
pub mod pull;
pub mod segment;
