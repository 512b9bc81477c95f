//! The destinations of a node, and what it answers on each of them.
use vstd::prelude::*;

pub mod backup;
pub mod channel_requests;
pub mod distro_requests;
pub mod fed_node;
pub mod node_requests;
pub mod notify_command;
pub mod payload;
pub mod publish;
pub mod stream_requests;
pub mod sync_session;

pub use fed_node::FedNode;

verus! {

/// The application name of this protocol.
pub const APP_NAME: &'static str = "rfed";

/// A client takes what waits for it.
pub const PULL_PATH: &'static str = "/rfed/pull";

/// A client subscribes to a channel.
pub const SUBSCRIBE_PATH: &'static str = "/rfed/subscribe";

/// A client ends a subscription.
pub const UNSUBSCRIBE_PATH: &'static str = "/rfed/unsubscribe";

/// A client registers a relay.
pub const NOTIFY_REGISTER_PATH: &'static str = "/rfed/notify/register";

/// A client takes a relay out.
pub const NOTIFY_UNREGISTER_PATH: &'static str = "/rfed/notify/unregister";

/// A client takes all its relays out.
pub const NOTIFY_CLEAR_PATH: &'static str = "/rfed/notify/clear";

/// A client asks what the node offers.
pub const CAPABILITIES_PATH: &'static str = "/rfed/capabilities";

/// A client opens a live stream of channels on its link.
pub const CHANNEL_STREAM_OPEN_PATH: &'static str = "/rfed/channel/stream/open";

/// A client opens a live stream of messages on its link.
pub const PROPAGATION_STREAM_OPEN_PATH: &'static str = "/rfed/propagation/stream/open";

/// A device is registered for a shared identity.
pub const DISTRO_REGISTER_PATH: &'static str = "/rfed/distro/register";

/// A device's registration is ended.
pub const DISTRO_UNREGISTER_PATH: &'static str = "/rfed/distro/unregister";

/// The devices of a shared identity are asked for.
pub const DISTRO_LIST_PATH: &'static str = "/rfed/distro/list";

/// A signed announce of a shared identity is handed in.
pub const DISTRO_ANNOUNCE_PATH: &'static str = "/rfed/distro/announce";

/// Seconds between refreshes of the service destinations, well within the
/// hour for which a path is kept.
pub const SERVICE_REFRESH_INTERVAL_SECS: u64 = 900;

/// Rounds by which the work of a stamp is expanded.
pub const STAMP_EXPAND_ROUNDS: u32 = 16;

/// The bytes of a stamp.
pub const STAMP_SIZE: usize = 32;

/// The bytes of a channel hash.
pub const CHANNEL_HASH_LEN: usize = 16;

/// Blobs in one pull response where the tier of the subscriber says nothing.
pub const DEFAULT_PULL_PAGE_SIZE: usize = 25;

/// The most subscriptions that wait to be passed on to a backup node.
pub const PENDING_BACKUP_CAP: usize = 1024;

} // verus!
