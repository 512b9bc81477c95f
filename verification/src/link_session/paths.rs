//! Every request path of a link, in both directions: the aspect chain with
//! slashes for dots, and the operation where the chain does not name it.
//!
//! A path is hashed into the wire request, so none of these is ever renamed.
use vstd::prelude::*;

verus! {

pub const NODE_OFFER: &'static str = "/node/offer";

pub const NODE_GET: &'static str = "/node/get";

pub const NODE_BACKUP_PUSH: &'static str = "/node/backup/push";

pub const NODE_CAPABILITIES: &'static str = "/node/capabilities";

pub const CHANNEL_SUBSCRIBE: &'static str = "/channel/subscribe";

pub const CHANNEL_UNSUBSCRIBE: &'static str = "/channel/unsubscribe";

pub const CHANNEL_PUBLISH: &'static str = "/channel/publish";

pub const CHANNEL_PULL: &'static str = "/channel/pull";

pub const CHANNEL_STREAM_OPEN: &'static str = "/channel/stream/open";

pub const PROPAGATION_STREAM_OPEN: &'static str = "/propagation/stream/open";

pub const NOTIFY_REGISTER: &'static str = "/notify/register";

pub const NOTIFY_UNREGISTER: &'static str = "/notify/unregister";

pub const NOTIFY_CLEAR: &'static str = "/notify/clear";

pub const DISTRO_REGISTER: &'static str = "/distro/register";

pub const DISTRO_ANNOUNCE: &'static str = "/distro/announce";

pub const DISTRO_PULL: &'static str = "/distro/pull";

pub const DISTRO_UNREGISTER: &'static str = "/distro/unregister";

pub const DISTRO_LIST: &'static str = "/distro/list";

/// Channel push to a client: the channel hash, then the inner blob.
pub const DELIVERY: &'static str = "/delivery";

/// Propagated message push to a client: the packed message.
pub const LXMF_DELIVERY: &'static str = "/lxmf/delivery";

/// Wake of a push bridge.
pub const NOTIFY: &'static str = "/notify";

} // verus!
