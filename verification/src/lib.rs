//! A Kademlia distributed hash table node, verified with Verus.
//!
//! The crate holds the engine of a node: the identifier space and its XOR
//! metric, the bucketed routing table, the local record store with
//! expiration, the wire format of the node-to-node messages, and the
//! iterative lookup as an explicit state machine. Sockets, clocks and
//! randomness stay with the caller, who hands their results in as plain
//! values.

use vstd::prelude::*;

pub mod key;
pub mod hashing;
pub mod storage;
pub mod routing;
pub mod protocol;
pub mod lookup;
pub mod node;
pub mod front;
pub mod network;

verus! {

/// The number of bytes in a key.
pub const KEY_LENGTH: usize = 32;

/// The maximum length of a message in bytes.
pub const MESSAGE_LENGTH: usize = 8196;

/// The number of k-buckets in the routing table: one for each bit of a key.
pub const ROUTING_TABLE_SIZE: usize = 256;

/// The maximum number of entries in a k-bucket, and the number of replicas
/// of a record.
pub const REPLICATION_PARAM: usize = 20;

/// The maximum number of requests in flight in one round of a lookup.
pub const CONCURRENCY_PARAM: usize = 3;

/// Request timeout in milliseconds.
pub const REQUEST_TIMEOUT: u64 = 5000;

/// Lifetime of a stored record in seconds.
pub const KEY_EXPIRATION: u64 = 3600;

/// Bucket refresh interval in seconds.
pub const BUCKET_REFRESH_INTERVAL: u64 = 3600;

} // verus!
