//! Node configuration and delivery tiers.
use vstd::prelude::*;
use crate::octets::holds;

verus! {

/// Delivery and anti-spam parameters of one tier of subscribers.
///
/// A node has two tiers: the default one for everyone, and one for the
/// subscribers that its configuration lists.
#[derive(Clone, Copy, Debug, PartialEq, Eq, Structural)]
pub struct TierPolicy {
    /// Proof-of-work bits required of incoming blobs. Nothing, or zero bits,
    /// means that none are required.
    pub stamp_cost: Option<u32>,
    /// By how many bits a stamp may fall short of the cost.
    pub stamp_flexibility: Option<u32>,
    /// Blobs held for an offline subscriber of this tier.
    pub deferred_queue_limit: usize,
    /// Blobs in one pull response. Nothing means the default page.
    pub deferred_pull_batch_limit: Option<usize>,
    /// Whether subscribers of this tier may register notify relays.
    pub allow_notify_registration: bool,
    /// Whether subscribers of this tier may subscribe to channels.
    pub allow_subscription: bool,
    /// Whether backup nodes must be among the trusted ones.
    pub trusted_backup_only: bool,
}

/// The tier of everyone.
pub open spec fn default_tier() -> TierPolicy {
    TierPolicy {
        stamp_cost: Some(16),
        stamp_flexibility: Some(3),
        deferred_queue_limit: 256,
        deferred_pull_batch_limit: None,
        allow_notify_registration: true,
        allow_subscription: true,
        trusted_backup_only: false,
    }
}

/// The tier of listed subscribers.
pub open spec fn vip_tier() -> TierPolicy {
    TierPolicy {
        stamp_cost: Some(8),
        stamp_flexibility: Some(2),
        deferred_queue_limit: 1024,
        deferred_pull_batch_limit: None,
        allow_notify_registration: true,
        allow_subscription: true,
        trusted_backup_only: false,
    }
}

impl Default for TierPolicy {
    fn default() -> (r: Self)
        ensures
            r == default_tier(),
    {
        TierPolicy {
            stamp_cost: Some(16),
            stamp_flexibility: Some(3),
            deferred_queue_limit: 256,
            deferred_pull_batch_limit: None,
            allow_notify_registration: true,
            allow_subscription: true,
            trusted_backup_only: false,
        }
    }
}

impl TierPolicy {
    /// A relaxed policy: a lower stamp cost and a larger deferred queue.
    pub fn vip_default() -> (r: Self)
        ensures
            r == vip_tier(),
    {
        TierPolicy {
            stamp_cost: Some(8),
            stamp_flexibility: Some(2),
            deferred_queue_limit: 1024,
            deferred_pull_batch_limit: None,
            allow_notify_registration: true,
            allow_subscription: true,
            trusted_backup_only: false,
        }
    }
}

/// The listed tier asks less work of a subscriber than the default one, and
/// holds more for them; both ask for some work and allow some slack, never
/// more slack than work.
pub proof fn law_vip_tier_relaxes_default_tier()
    ensures
        0 < vip_tier().stamp_cost->0 < default_tier().stamp_cost->0,
        vip_tier().deferred_queue_limit > default_tier().deferred_queue_limit,
        0 < default_tier().stamp_flexibility->0 <= default_tier().stamp_cost->0,
        0 < vip_tier().stamp_flexibility->0 <= vip_tier().stamp_cost->0,
{
}

/// The cost that a stamp has to meet, with zero standing for none at all.
pub open spec fn effective_cost_of(cost: Option<u32>) -> Option<u32> {
    match cost {
        Some(c) => if c > 0 {
            Some(c)
        } else {
            None
        },
        None => None,
    }
}

/// The cost that a stamp has to meet: `Some(0)` asks for nothing, as `None`
/// does.
pub fn effective_stamp_cost(cost: Option<u32>) -> (r: Option<u32>)
    ensures
        r == effective_cost_of(cost),
{
    match cost {
        Some(c) => {
            if c > 0 {
                Some(c)
            } else {
                None
            }
        },
        None => None,
    }
}

/// The fewest bits with which a stamp is accepted: the cost less the slack,
/// and none where the slack is the larger.
pub open spec fn min_cost_of(cost: u32, flexibility: Option<u32>) -> int {
    let slack = match flexibility {
        Some(f) => f as int,
        None => 0,
    };
    if cost >= slack {
        cost - slack
    } else {
        0
    }
}

/// The fewest bits with which a stamp is accepted.
pub fn min_stamp_cost(cost: u32, flexibility: Option<u32>) -> (r: u32)
    ensures
        r == min_cost_of(cost, flexibility),
{
    match flexibility {
        Some(f) => cost.saturating_sub(f),
        None => cost,
    }
}

/// Configuration of a node.
pub struct NodeConfig {
    /// Directory of the node's own files.
    pub config_dir: String,
    /// Directory of the network stack's configuration.
    pub rns_config_dir: Option<String>,
    /// File of the node's identity.
    pub identity_file: String,
    /// Name of the node in its announces.
    pub display_name: String,
    /// Seconds between announces.
    pub announce_interval_secs: u64,
    /// Whether to announce right after the start.
    pub announce_at_start: bool,
    /// Policy for everyone.
    pub default_policy: TierPolicy,
    /// Policy for the subscribers in `vip_subscribers`.
    pub vip_policy: TierPolicy,
    /// Hashes of the subscribers of the listed tier.
    pub vip_subscribers: Vec<Vec<u8>>,
    /// Proof-of-work bits asked of peers.
    pub peering_cost: Option<u32>,
    /// Bytes of stored blobs.
    pub storage_limit_bytes: u64,
    /// Bytes sent to a peer in one session.
    pub transfer_limit_bytes: Option<u64>,
    /// Bytes sent to a peer in one period.
    pub sync_limit_bytes: Option<u64>,
    /// Hashes of configured peers.
    pub static_peers: Vec<Vec<u8>>,
    /// Whether blobs are taken from configured peers only.
    pub from_static_only: bool,
    /// Hashes of the nodes that may back up subscribers here; empty means any.
    pub trusted_backup_peers: Vec<Vec<u8>>,
    /// First choice of backup node.
    pub primary_node: Option<Vec<u8>>,
    /// Further choices of backup node, best first.
    pub secondary_nodes: Vec<Vec<u8>>,
    /// Time without a sign of the owner after which a backup delivers.
    pub owner_offline: u64,
    /// Whether the node stores and forwards propagated messages.
    pub lxmf_propagation_enabled: bool,
    /// Whether it peers with propagation nodes that it hears.
    pub lxmf_propagation_autopeer: bool,
    /// Hashes of configured propagation peers.
    pub lxmf_propagation_peers: Vec<Vec<u8>>,
}

/// A file name within a directory.
pub open spec fn path_in(dir: Seq<char>, name: Seq<char>) -> Seq<char> {
    if dir.len() == 0 {
        name
    } else if dir.last() == '/' {
        dir + name
    } else {
        dir + seq!['/'] + name
    }
}

pub fn join_path(dir: &str, name: &str) -> (r: String)
    ensures
        r@ == path_in(dir@, name@),
{
    let n: usize = dir.unicode_len();
    if n == 0 {
        return name.to_owned();
    }
    let mut out: String = dir.to_owned();
    if dir.get_char(n - 1) != '/' {
        proof {
            reveal_strlit("/");
        }
        assert("/"@ =~= seq!['/']);
        out = out.concat("/");
    }
    out.concat(name)
}

impl NodeConfig {
    /// The policy that applies to a subscriber.
    pub open spec fn spec_policy_for(&self, subscriber_hash: Seq<u8>) -> TierPolicy {
        if crate::octets::views(self.vip_subscribers@).contains(subscriber_hash) {
            self.vip_policy
        } else {
            self.default_policy
        }
    }

    /// The policy that applies to a subscriber.
    pub fn policy_for(&self, subscriber_hash: &[u8]) -> (r: &TierPolicy)
        ensures
            *r == self.spec_policy_for(subscriber_hash@),
    {
        if holds(self.vip_subscribers.as_slice(), subscriber_hash) {
            &self.vip_policy
        } else {
            &self.default_policy
        }
    }

    /// Directory of stored blobs.
    pub fn blob_store_dir(&self) -> (r: String)
        ensures
            r@ == path_in(self.config_dir@, "blobs"@),
    {
        join_path(self.config_dir.as_str(), "blobs")
    }

    /// File of the subscription table.
    pub fn subscription_file(&self) -> (r: String)
        ensures
            r@ == path_in(self.config_dir@, "subscriptions.rmp"@),
    {
        join_path(self.config_dir.as_str(), "subscriptions.rmp")
    }

    /// File of the notify registrations.
    pub fn notify_registry_file(&self) -> (r: String)
        ensures
            r@ == path_in(self.config_dir@, "notify_registrations.rmp"@),
    {
        join_path(self.config_dir.as_str(), "notify_registrations.rmp")
    }

    /// File of the deferred delivery queue.
    pub fn deferred_queue_file(&self) -> (r: String)
        ensures
            r@ == path_in(self.config_dir@, "deferred_delivery.rmp"@),
    {
        join_path(self.config_dir.as_str(), "deferred_delivery.rmp")
    }

    /// File of the distro table.
    pub fn distro_file(&self) -> (r: String)
        ensures
            r@ == path_in(self.config_dir@, "distro.rmp"@),
    {
        join_path(self.config_dir.as_str(), "distro.rmp")
    }

    /// File of the pre-signed distro announces.
    pub fn distro_announce_file(&self) -> (r: String)
        ensures
            r@ == path_in(self.config_dir@, "distro_announces.rmp"@),
    {
        join_path(self.config_dir.as_str(), "distro_announces.rmp")
    }

    /// File of the sync peers.
    pub fn peer_state_file(&self) -> (r: String)
        ensures
            r@ == path_in(self.config_dir@, "peers.rmp"@),
    {
        join_path(self.config_dir.as_str(), "peers.rmp")
    }
}

/// A subscriber is served by the tier of the privileged ones exactly where it
/// is listed among them.
pub proof fn law_tier_of(config: NodeConfig, subscriber: Seq<u8>, vip: bool)
    requires
        vip <==> exists|i: int|
            0 <= i < config.vip_subscribers@.len() && (#[trigger] config.vip_subscribers@[i])@ == subscriber,
    ensures
        vip ==> config.spec_policy_for(subscriber) == config.vip_policy,
        !vip ==> config.spec_policy_for(subscriber) == config.default_policy,
{
    let list = crate::octets::views(config.vip_subscribers@);
    if vip {
        let i = choose|i: int|
            0 <= i < config.vip_subscribers@.len() && (#[trigger] config.vip_subscribers@[i])@ == subscriber;
        assert(list[i] == subscriber);
    }
    if list.contains(subscriber) {
        let i = list.index_of(subscriber);
        assert(config.vip_subscribers@[i]@ == subscriber);
    }
}

/// A stamp is accepted down to the cost less the slack, and no slack makes the
/// cost negative. A cost of zero asks for no stamp.
pub proof fn law_least_cost(cost: u32, slack: u32)
    ensures
        min_cost_of(cost, None) == cost,
        slack <= cost ==> min_cost_of(cost, Some(slack)) + slack == cost,
        slack > cost ==> min_cost_of(cost, Some(slack)) == 0,
        effective_cost_of(Some(cost)) == (if cost == 0 {
            None
        } else {
            Some(cost)
        }),
        effective_cost_of(None) is None,
{
}

/// The path of a file in a directory has one slash between the two, and is the
/// name alone where the directory is empty.
pub proof fn law_path_in_directory(dir: Seq<char>, name: Seq<char>)
    ensures
        path_in(Seq::empty(), name) == name,
        dir.len() > 0 && dir.last() != '/' ==> path_in(dir, name) == dir + seq!['/'] + name,
        path_in(dir + seq!['/'], name) == dir + seq!['/'] + name,
{
    assert((dir + seq!['/']).last() == '/');
}

/// Where nothing is configured, a stamp costs 16 bits, of which 3 may be missing,
/// and 256 blobs wait for a subscriber; for a privileged one 8, 2 and 1024.
/// Everybody may subscribe and register, and any node may be a backup.
pub proof fn law_tiers_where_nothing_is_configured(vip: bool)
    ensures
        ({
            let tier = if vip {
                vip_tier()
            } else {
                default_tier()
            };
            &&& tier.stamp_cost == Some(if vip { 8u32 } else { 16u32 })
            &&& tier.stamp_flexibility == Some(if vip { 2u32 } else { 3u32 })
            &&& tier.deferred_queue_limit == (if vip { 1024usize } else { 256usize })
            &&& tier.deferred_pull_batch_limit is None
            &&& tier.allow_subscription
            &&& tier.allow_notify_registration
            &&& !tier.trusted_backup_only
        }),
{
}

} // verus!
