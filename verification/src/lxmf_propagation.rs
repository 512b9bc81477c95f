//! A store-and-forward node for directly addressed messages.
pub mod exchange;
pub mod id_queue;
pub mod ingest;
pub mod node;
pub mod peer;
pub mod requests;
pub mod store;
pub mod sync;
pub mod wire;

pub use id_queue::IdQueue;
pub use peer::PropPeer;
