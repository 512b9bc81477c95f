//! The state of a node.
use vstd::prelude::*;
use crate::announce::encode_node_announce;
use crate::blob_store::BlobStore;
use crate::config::{effective_cost_of, effective_stamp_cost, NodeConfig};
use crate::deferred_queue::{deferred_views, DeferredEntry, DeferredQueue, GLOBAL_LIMIT};
use crate::destinations::{APP_NAME, SERVICE_REFRESH_INTERVAL_SECS};
use crate::digest::{destination_hash, destination_hash_of, texts};
use crate::distro::{announce_views, device_views, DistroAnnounce, DistroAnnounceStore, DistroEntry, DistroTable};
use crate::fanout::{firsts, limits_of, FanoutPlan};
use crate::notify::{registration_views, NotifyRegistration, NotifyRegistry};
use crate::octets::opt_view;
use crate::stream_registry::{ChannelStreamRegistry, PropagationStreamRegistry};
use crate::subscription::{
    owned_subscribers_of, owned_views, subscription_views, to_channel, SubscriptionEntry, SubscriptionTable,
};

verus! {

/// What a node knows and holds.
pub struct FedNode {
    /// The hash of the node's identity.
    pub identity_hash: Vec<u8>,
    pub config: NodeConfig,
    pub blob_store: BlobStore,
    pub subscription_table: SubscriptionTable,
    pub distro_table: DistroTable,
    /// Signed announces that the node passes on.
    pub distro_announces: DistroAnnounceStore,
    pub notify_registry: NotifyRegistry,
    pub deferred_queue: DeferredQueue,
    pub channel_streams: ChannelStreamRegistry,
    pub propagation_streams: PropagationStreamRegistry,
    /// Subscribers and channels to be passed on to the backup node.
    pub pending_backup_pushes: Vec<(Vec<u8>, Vec<u8>)>,
    /// The backup node that was chosen where none is configured.
    pub selected_backups: Vec<Vec<u8>>,
    /// The peers to which a link for an exchange of blobs is open.
    pub sync_links: Vec<Vec<u8>>,
}

/// A destination of a node.
#[derive(Clone, Copy, Debug, PartialEq, Eq, Structural)]
pub enum Service {
    Node,
    Delivery,
    Channel,
    Notify,
    ChannelSubscribe,
    ChannelUnsubscribe,
    ChannelPublish,
    ChannelPull,
    ChannelStream,
    PropagationStream,
    NotifyRegister,
    NotifyUnregister,
    DistroRegister,
    DistroUnregister,
    DistroList,
}

impl Service {
    /// The aspects of the destination.
    pub open spec fn spec_aspects(self) -> Seq<Seq<char>> {
        match self {
            Service::Node => seq!["node"@],
            Service::Delivery => seq!["delivery"@],
            Service::Channel => seq!["channel"@],
            Service::Notify => seq!["notify"@],
            Service::ChannelSubscribe => seq!["channel"@, "subscribe"@],
            Service::ChannelUnsubscribe => seq!["channel"@, "unsubscribe"@],
            Service::ChannelPublish => seq!["channel"@, "publish"@],
            Service::ChannelPull => seq!["channel"@, "pull"@],
            Service::ChannelStream => seq!["channel"@, "stream"@],
            Service::PropagationStream => seq!["propagation"@, "stream"@],
            Service::NotifyRegister => seq!["notify"@, "register"@],
            Service::NotifyUnregister => seq!["notify"@, "unregister"@],
            Service::DistroRegister => seq!["distro"@, "register"@],
            Service::DistroUnregister => seq!["distro"@, "unregister"@],
            Service::DistroList => seq!["distro"@, "list"@],
        }
    }

    /// The aspects of the destination.
    pub fn aspects(self) -> (r: Vec<&'static str>)
        ensures
            texts(r@) == self.spec_aspects(),
    {
        let list: Vec<&'static str> = match self {
            Service::Node => vec!["node"],
            Service::Delivery => vec!["delivery"],
            Service::Channel => vec!["channel"],
            Service::Notify => vec!["notify"],
            Service::ChannelSubscribe => vec!["channel", "subscribe"],
            Service::ChannelUnsubscribe => vec!["channel", "unsubscribe"],
            Service::ChannelPublish => vec!["channel", "publish"],
            Service::ChannelPull => vec!["channel", "pull"],
            Service::ChannelStream => vec!["channel", "stream"],
            Service::PropagationStream => vec!["propagation", "stream"],
            Service::NotifyRegister => vec!["notify", "register"],
            Service::NotifyUnregister => vec!["notify", "unregister"],
            Service::DistroRegister => vec!["distro", "register"],
            Service::DistroUnregister => vec!["distro", "unregister"],
            Service::DistroList => vec!["distro", "list"],
        };
        assert(texts(list@) =~= self.spec_aspects());
        list
    }

    /// The hash of the destination under an identity.
    pub open spec fn hash_of(self, identity: Seq<u8>) -> Seq<u8> {
        destination_hash_of(identity, APP_NAME@, self.spec_aspects())
    }

    /// The hash of the destination under an identity.
    pub fn hash(self, identity_hash: &[u8]) -> (r: Vec<u8>)
        ensures
            r@ == self.hash_of(identity_hash@),
    {
        destination_hash(identity_hash, APP_NAME, self.aspects().as_slice())
    }
}

/// A destination that is announced, with the data that goes along.
pub struct ServiceAnnounce {
    pub service: Service,
    pub app_data: Option<Vec<u8>>,
}

/// What a list of announces holds.
pub open spec fn service_announce_views(list: Seq<ServiceAnnounce>) -> Seq<(Service, Option<Seq<u8>>)> {
    list.map_values(|a: ServiceAnnounce| (a.service, opt_view(a.app_data)))
}

/// A destination that is refreshed from time to time.
pub struct Publication {
    pub service: Service,
    pub refresh_secs: u64,
    pub app_data: Option<Vec<u8>>,
}

/// What a list of publications holds.
pub open spec fn publication_views(list: Seq<Publication>) -> Seq<(Service, u64, Option<Seq<u8>>)> {
    list.map_values(|p: Publication| (p.service, p.refresh_secs, opt_view(p.app_data)))
}

/// The order in which the destinations are announced: the one that devices
/// register on comes first, so that it is not held up by the others.
pub open spec fn announced_services() -> Seq<Service> {
    seq![
        Service::DistroRegister,
        Service::Node,
        Service::Channel,
        Service::Delivery,
        Service::Notify,
        Service::ChannelSubscribe,
        Service::ChannelUnsubscribe,
        Service::ChannelPublish,
        Service::ChannelPull,
        Service::ChannelStream,
        Service::PropagationStream,
        Service::NotifyRegister,
        Service::NotifyUnregister,
        Service::DistroUnregister,
        Service::DistroList,
    ]
}

/// The order in which the destinations are published.
pub open spec fn published_services() -> Seq<Service> {
    seq![
        Service::Node,
        Service::Channel,
        Service::Delivery,
        Service::Notify,
        Service::ChannelSubscribe,
        Service::ChannelUnsubscribe,
        Service::ChannelPublish,
        Service::ChannelPull,
        Service::ChannelStream,
        Service::PropagationStream,
        Service::NotifyRegister,
        Service::NotifyUnregister,
        Service::DistroRegister,
        Service::DistroUnregister,
        Service::DistroList,
    ]
}

/// What a node tells of itself in its announces: its name, and the cost of
/// stamps where there is one.
pub open spec fn node_app_data(config: NodeConfig) -> Seq<u8> {
    crate::msgpack::msgpack_write(
        crate::announce::node_announce_value(
            config.display_name@,
            effective_cost_of(config.default_policy.stamp_cost),
        ),
    )
}

/// The data that goes along with the announce of a destination.
pub open spec fn announced_with(config: NodeConfig, s: Service) -> Option<Seq<u8>> {
    if s == Service::Node || s == Service::ChannelPublish {
        Some(node_app_data(config))
    } else {
        None
    }
}

/// How a destination is published: how often, and with which data.
pub open spec fn published_as(config: NodeConfig, s: Service) -> (Service, u64, Option<Seq<u8>>) {
    (
        s,
        if s == Service::Node {
            config.announce_interval_secs
        } else {
            SERVICE_REFRESH_INTERVAL_SECS
        },
        if s == Service::Node || s == Service::Channel || s == Service::ChannelPublish {
            Some(node_app_data(config))
        } else {
            None
        },
    )
}

impl FedNode {
    /// Whether the parts of the state are in order.
    pub open spec fn wf(&self) -> bool {
        &&& self.blob_store.wf()
        &&& self.channel_streams.wf()
        &&& self.propagation_streams.wf()
    }

    /// A node with what was saved of an earlier one.
    pub fn new(
        identity_hash: Vec<u8>,
        config: NodeConfig,
        subscriptions: Vec<SubscriptionEntry>,
        devices: Vec<DistroEntry>,
        announces: Vec<DistroAnnounce>,
        registrations: Vec<NotifyRegistration>,
        deferred: Vec<DeferredEntry>,
    ) -> (r: Self)
        ensures
            r.wf(),
            r.identity_hash == identity_hash,
            r.config == config,
            r.blob_store@ == (crate::blob_store::StoreView {
                blobs: Seq::empty(),
                limit: config.storage_limit_bytes,
                used: 0,
                last_eviction: 0,
            }),
            r.subscription_table@ == subscription_views(subscriptions@),
            r.distro_table@ == device_views(devices@),
            r.distro_announces@ == announce_views(announces@),
            r.notify_registry@ == registration_views(registrations@),
            r.deferred_queue@ == deferred_views(deferred@),
            r.deferred_queue.global_limit == GLOBAL_LIMIT,
            r.channel_streams@.len() == 0,
            r.propagation_streams@.len() == 0,
            r.pending_backup_pushes@.len() == 0,
            r.selected_backups@.len() == 0,
            r.sync_links@.len() == 0,
    {
        let storage_limit: u64 = config.storage_limit_bytes;
        FedNode {
            identity_hash,
            config,
            blob_store: BlobStore::open(storage_limit),
            subscription_table: SubscriptionTable::load(subscriptions),
            distro_table: DistroTable::load(devices),
            distro_announces: DistroAnnounceStore::load(announces),
            notify_registry: NotifyRegistry::load(registrations),
            deferred_queue: DeferredQueue::with_entries(deferred),
            channel_streams: ChannelStreamRegistry::new(),
            propagation_streams: PropagationStreamRegistry::new(),
            pending_backup_pushes: Vec::new(),
            selected_backups: Vec::new(),
            sync_links: Vec::new(),
        }
    }

    /// Who a blob for a channel is to be delivered to.
    pub fn plan_channel_fanout(&self, channel_dest_hash: &[u8]) -> (r: FanoutPlan)
        ensures
            owned_views(r.subscribers@) == owned_subscribers_of(
                self.subscription_table@.filter(to_channel(channel_dest_hash@)),
            ),
            r.deferred_limits.wf(),
            r.deferred_limits@ == limits_of(self.config, firsts(owned_views(r.subscribers@))),
    {
        FanoutPlan::build(&self.subscription_table, &self.config, channel_dest_hash)
    }

    fn app_data(&self) -> (r: Vec<u8>)
        ensures
            r@ == node_app_data(self.config),
    {
        encode_node_announce(
            self.config.display_name.as_str(),
            effective_stamp_cost(self.config.default_policy.stamp_cost),
        )
    }

    /// The announces to be sent, in order.
    pub fn announce(&self) -> (r: Vec<ServiceAnnounce>)
        ensures
            service_announce_views(r@) == announced_services().map_values(
                |s: Service| (s, announced_with(self.config, s)),
            ),
    {
        let order: Vec<Service> = vec![
            Service::DistroRegister,
            Service::Node,
            Service::Channel,
            Service::Delivery,
            Service::Notify,
            Service::ChannelSubscribe,
            Service::ChannelUnsubscribe,
            Service::ChannelPublish,
            Service::ChannelPull,
            Service::ChannelStream,
            Service::PropagationStream,
            Service::NotifyRegister,
            Service::NotifyUnregister,
            Service::DistroUnregister,
            Service::DistroList,
        ];
        assert(order@ =~= announced_services());
        let ghost want = announced_services().map_values(|s: Service| (s, announced_with(self.config, s)));
        let mut out: Vec<ServiceAnnounce> = Vec::new();
        let mut i: usize = 0;
        assert(service_announce_views(out@) =~= want.take(0));
        while i < order.len()
            invariant
                0 <= i <= order@.len(),
                order@ == announced_services(),
                want == announced_services().map_values(|s: Service| (s, announced_with(self.config, s))),
                service_announce_views(out@) == want.take(i as int),
            decreases order@.len() - i,
        {
            let service: Service = order[i];
            let app_data: Option<Vec<u8>> = match service {
                Service::Node | Service::ChannelPublish => Some(self.app_data()),
                _ => None,
            };
            let ghost was = service_announce_views(out@);
            let item: ServiceAnnounce = ServiceAnnounce { service, app_data };
            out.push(item);
            proof {
                assert(service_announce_views(out@) =~= was.push((service, announced_with(self.config, service))));
                assert(want.take(i + 1) =~= want.take(i as int).push(want[i as int]));
            }
            i += 1;
        }
        assert(want.take(want.len() as int) =~= want);
        out
    }

    /// The destinations to be refreshed, with how often and with which data.
    pub fn publish_destinations(&self) -> (r: Vec<Publication>)
        ensures
            publication_views(r@) == published_services().map_values(|s: Service| published_as(self.config, s)),
    {
        let order: Vec<Service> = vec![
            Service::Node,
            Service::Channel,
            Service::Delivery,
            Service::Notify,
            Service::ChannelSubscribe,
            Service::ChannelUnsubscribe,
            Service::ChannelPublish,
            Service::ChannelPull,
            Service::ChannelStream,
            Service::PropagationStream,
            Service::NotifyRegister,
            Service::NotifyUnregister,
            Service::DistroRegister,
            Service::DistroUnregister,
            Service::DistroList,
        ];
        assert(order@ =~= published_services());
        let ghost want = published_services().map_values(|s: Service| published_as(self.config, s));
        let mut out: Vec<Publication> = Vec::new();
        let mut i: usize = 0;
        assert(publication_views(out@) =~= want.take(0));
        while i < order.len()
            invariant
                0 <= i <= order@.len(),
                order@ == published_services(),
                want == published_services().map_values(|s: Service| published_as(self.config, s)),
                publication_views(out@) == want.take(i as int),
            decreases order@.len() - i,
        {
            let service: Service = order[i];
            let app_data: Option<Vec<u8>> = match service {
                Service::Node | Service::Channel | Service::ChannelPublish => Some(self.app_data()),
                _ => None,
            };
            let refresh_secs: u64 = match service {
                Service::Node => self.config.announce_interval_secs,
                _ => SERVICE_REFRESH_INTERVAL_SECS,
            };
            let ghost was = publication_views(out@);
            let item: Publication = Publication { service, refresh_secs, app_data };
            out.push(item);
            proof {
                assert(publication_views(out@) =~= was.push(published_as(self.config, service)));
                assert(want.take(i + 1) =~= want.take(i as int).push(want[i as int]));
            }
            i += 1;
        }
        assert(want.take(want.len() as int) =~= want);
        out
    }
}

/// Every destination is announced once and published once.
pub proof fn law_every_destination_is_announced(s: Service)
    ensures
        announced_services().contains(s),
        published_services().contains(s),
        announced_services().no_duplicates(),
        published_services().no_duplicates(),
{
    let a = announced_services();
    let p = published_services();
    match s {
        Service::Node => {
            assert(a[1] == s && p[0] == s);
        },
        Service::Delivery => {
            assert(a[3] == s && p[2] == s);
        },
        Service::Channel => {
            assert(a[2] == s && p[1] == s);
        },
        Service::Notify => {
            assert(a[4] == s && p[3] == s);
        },
        Service::ChannelSubscribe => {
            assert(a[5] == s && p[4] == s);
        },
        Service::ChannelUnsubscribe => {
            assert(a[6] == s && p[5] == s);
        },
        Service::ChannelPublish => {
            assert(a[7] == s && p[6] == s);
        },
        Service::ChannelPull => {
            assert(a[8] == s && p[7] == s);
        },
        Service::ChannelStream => {
            assert(a[9] == s && p[8] == s);
        },
        Service::PropagationStream => {
            assert(a[10] == s && p[9] == s);
        },
        Service::NotifyRegister => {
            assert(a[11] == s && p[10] == s);
        },
        Service::NotifyUnregister => {
            assert(a[12] == s && p[11] == s);
        },
        Service::DistroRegister => {
            assert(a[0] == s && p[12] == s);
        },
        Service::DistroUnregister => {
            assert(a[13] == s && p[13] == s);
        },
        Service::DistroList => {
            assert(a[14] == s && p[14] == s);
        },
    }
}

/// The node destination is announced as often as it is configured, and every
/// other one every fifteen minutes.
pub proof fn law_how_often_a_destination_is_announced(config: NodeConfig, s: Service)
    ensures
        published_as(config, s).0 == s,
        s is Node ==> published_as(config, s).1 == config.announce_interval_secs,
        !(s is Node) ==> published_as(config, s).1 == 15 * 60,
        published_as(config, s).2 is Some <==> s is Node || s is Channel || s is ChannelPublish,
        announced_with(config, s) is Some <==> s is Node || s is ChannelPublish,
{
}

} // verus!
