//! Logic of a federation node: channels, deferred delivery, relays and
//! message propagation, with every rule stated as a contract.

pub mod announce;
pub mod blob_store;
pub mod channel;
pub mod clock;
pub mod config;
pub mod deferred_queue;
pub mod destinations;
pub mod digest;
pub mod distro;
pub mod fanout;
pub mod fields;
pub mod handoff;
pub mod id_map;
pub mod link_session;
pub mod lists;
pub mod lxmf_propagation;
pub mod msgpack;
pub mod notify;
pub mod octets;
pub mod options;
pub mod order;
pub mod sessions;
pub mod status;
pub mod stream_registry;
pub mod subscription;
pub mod text;
