//! A Kademlia distributed hash table node: XOR-metric identifiers, a bucketed
//! routing table, a stable wire codec for the request/reply envelope, the
//! request handler, the pending-request transport state, and the iterative
//! lookup engine.
use vstd::prelude::*;

pub mod codec;
pub mod kademlia;
pub mod key;
pub mod message;
pub mod routing;
pub mod rpc;

pub use kademlia::Kademlia;
pub use key::Key;
pub use routing::NodeInfo;

verus! {

/// Length of an identifier in bytes.
pub const KEY_LEN: usize = 20;

/// Number of buckets in a routing table (one per possible prefix length).
pub const N_BUCKETS: usize = 160;

/// Capacity of each bucket, and the replication factor.
pub const K_PARAM: usize = 8;

/// Parallelism of iterative lookups.
pub const A_PARAM: usize = 3;

/// Maximum length in bytes of a serialised message.
pub const MESSAGE_LEN: usize = 8196;

/// Timeout in milliseconds for a pending request.
pub const TIMEOUT: u64 = 5000;

} // verus!
