//! The state of a propagation node, its peers, and what it answers.
use vstd::prelude::*;
use vstd::utf8::encode_utf8;
use crate::config::NodeConfig;
use crate::id_map::IdMap;
use crate::lxmf_propagation::id_queue::IdQueue;
use crate::lxmf_propagation::peer::{fresh_peer, PeerView, PropPeer};
use crate::lxmf_propagation::wire::{encode_own_announce, own_announce, AnnounceView, PropagationAnnounce};
use crate::msgpack::msgpack_write;
use crate::octets::{copied, copied_list, holds, lemma_filter_all, same_bytes, views};

verus! {

/// The application name of the protocol.
pub const LXMF_APP: &'static str = "lxmf";

/// The aspect of a propagation node.
pub const PROP_ASPECT: &'static str = "propagation";

/// The aspect under which a client receives messages.
pub const DELIVERY_ASPECT: &'static str = "delivery";

/// The bytes of a destination hash, with which a message starts.
pub const DESTINATION_LENGTH: usize = 16;

/// Proof-of-work bits asked of a message where none are configured.
pub const DEFAULT_STAMP_COST: u32 = 16;

/// By how many bits a stamp may fall short where nothing is configured.
pub const DEFAULT_STAMP_FLEXIBILITY: u32 = 3;

/// Proof-of-work bits asked of a peering key where none are configured.
pub const DEFAULT_PEERING_COST: u32 = 18;

/// The most proof-of-work bits that this node spends on a peering key.
pub const MAX_PEERING_COST: u32 = 26;

/// The bytes of a message where no limit is configured.
pub const DEFAULT_TRANSFER_LIMIT: u64 = 262_144;

/// The bytes of a sync where no limit is configured.
pub const DEFAULT_SYNC_LIMIT: u64 = 10_485_760;

/// The most peers that a node takes up on its own.
pub const MAX_PEERS: usize = 20;

/// Messages pushed to all peers together in a minute.
pub const DEFAULT_OUTBOUND_SYNC_MSGS_PER_MIN: u64 = 600;

/// The request path of an offer.
pub const OFFER_PATH: &'static str = "/offer";

/// The request path of a client that asks for messages.
pub const GET_PATH: &'static str = "/get";

/// The part of a node that does not change while it runs.
pub struct Settings {
    /// Hash of the node's own propagation destination.
    pub destination_hash: Vec<u8>,
    /// Hash of the node's identity.
    pub identity_hash: Vec<u8>,
    pub stamp_cost: u32,
    pub stamp_flexibility: u32,
    pub peering_cost: u32,
    pub transfer_limit_bytes: u64,
    pub sync_limit_bytes: u64,
    pub storage_limit_bytes: u64,
    pub node_name: String,
    /// Whether the node peers with nodes that it hears.
    pub autopeer: bool,
    /// Whether the node takes offers from configured peers only.
    pub from_static_only: bool,
    /// The configured peers.
    pub static_peers: Vec<Vec<u8>>,
}

/// A value that may be configured, and the one that stands in for it.
pub open spec fn or_default<T>(configured: Option<T>, default: T) -> T {
    match configured {
        Some(v) => v,
        None => default,
    }
}

impl Settings {
    /// The settings of a node under a configuration.
    pub fn from_config(config: &NodeConfig, destination_hash: Vec<u8>, identity_hash: Vec<u8>) -> (r: Self)
        ensures
            r.destination_hash == destination_hash,
            r.identity_hash == identity_hash,
            r.stamp_cost == or_default(config.default_policy.stamp_cost, DEFAULT_STAMP_COST),
            r.stamp_flexibility == or_default(config.default_policy.stamp_flexibility, DEFAULT_STAMP_FLEXIBILITY),
            r.peering_cost == or_default(config.peering_cost, DEFAULT_PEERING_COST),
            r.transfer_limit_bytes == or_default(config.transfer_limit_bytes, DEFAULT_TRANSFER_LIMIT),
            r.sync_limit_bytes == or_default(config.sync_limit_bytes, DEFAULT_SYNC_LIMIT),
            r.storage_limit_bytes == config.storage_limit_bytes,
            r.node_name@ == config.display_name@,
            r.autopeer == config.lxmf_propagation_autopeer,
            r.from_static_only == !config.lxmf_propagation_autopeer,
            views(r.static_peers@) == views(config.lxmf_propagation_peers@),
    {
        Settings {
            destination_hash,
            identity_hash,
            stamp_cost: match config.default_policy.stamp_cost {
                Some(c) => c,
                None => DEFAULT_STAMP_COST,
            },
            stamp_flexibility: match config.default_policy.stamp_flexibility {
                Some(f) => f,
                None => DEFAULT_STAMP_FLEXIBILITY,
            },
            peering_cost: match config.peering_cost {
                Some(c) => c,
                None => DEFAULT_PEERING_COST,
            },
            transfer_limit_bytes: match config.transfer_limit_bytes {
                Some(b) => b,
                None => DEFAULT_TRANSFER_LIMIT,
            },
            sync_limit_bytes: match config.sync_limit_bytes {
                Some(b) => b,
                None => DEFAULT_SYNC_LIMIT,
            },
            storage_limit_bytes: config.storage_limit_bytes,
            node_name: config.display_name.as_str().to_owned(),
            autopeer: config.lxmf_propagation_autopeer,
            from_static_only: !config.lxmf_propagation_autopeer,
            static_peers: copied_list(&config.lxmf_propagation_peers),
        }
    }
}

/// A stored message.
pub struct PropagationEntry {
    /// The destination that the message is for.
    pub destination_hash: Vec<u8>,
    /// The file that holds it.
    pub filepath: String,
    /// When it was received.
    pub received: u64,
    /// The bytes of its file.
    pub size: usize,
    /// The proof-of-work value of its stamp.
    pub stamp_value: u32,
}

/// A propagation node: its messages, its peers, and its pace.
pub struct LxmfPropagationNode {
    pub settings: Settings,
    /// The stored messages by their ids.
    pub entries: IdMap<PropagationEntry>,
    /// The peers.
    pub peers: Vec<PropPeer>,
    /// The peers for which a peering key is being found.
    pub in_flight_keys: IdQueue,
    pub messages_received: u64,
    pub messages_served: u64,
    /// When peers were last looked at for a sync.
    pub last_sync_tick: u64,
    /// When the node started.
    pub started_at: u64,
    /// The messages received since the start, in the order in which they came.
    pub fresh_since_start: Vec<Vec<u8>>,
    pub backlog_hold_logged: bool,
    /// When the minute began for which pushed messages are counted.
    pub outbound_sync_window_start: u64,
    pub outbound_sync_window_count: u64,
    pub outbound_sync_msgs_per_min: u64,
    pub outbound_sync_hold_logged: bool,
}

/// What a [`LxmfPropagationNode`] holds.
pub struct NodeView {
    pub settings: Settings,
    pub entries: Seq<(Seq<u8>, PropagationEntry)>,
    pub peers: Seq<PeerView>,
    pub in_flight: Seq<Seq<u8>>,
    pub messages_received: u64,
    pub messages_served: u64,
    pub last_sync_tick: u64,
    pub started_at: u64,
    pub fresh: Seq<Seq<u8>>,
    pub backlog_hold_logged: bool,
    pub window_start: u64,
    pub window_count: u64,
    pub msgs_per_min: u64,
    pub hold_logged: bool,
}

/// What the peers of a list hold.
pub open spec fn peer_views(peers: Seq<PropPeer>) -> Seq<PeerView> {
    peers.map_values(|p: PropPeer| p@)
}

/// Whether no two peers are the same.
pub open spec fn peers_distinct(peers: Seq<PeerView>) -> bool {
    forall|i: int, j: int|
        0 <= i < j < peers.len() ==> (#[trigger] peers[i]).destination_hash != (#[trigger] peers[j]).destination_hash
}

/// Whether there is a peer with this hash.
pub open spec fn has_peer(peers: Seq<PeerView>, hash: Seq<u8>) -> bool {
    exists|i: int| 0 <= i < peers.len() && (#[trigger] peers[i]).destination_hash == hash
}

/// The peer with this hash.
pub open spec fn peer_of(
    peers: Seq<PeerView>,
    hash: Seq<u8>,
) -> PeerView {
    peers[choose|i: int| 0 <= i < peers.len() && (#[trigger] peers[i]).destination_hash == hash]
}

/// The peers with `p` in the place of the one with this hash.
pub open spec fn with_peer(
    peers: Seq<PeerView>,
    hash: Seq<u8>,
    p: PeerView,
) -> Seq<PeerView> {
    Seq::new(
        peers.len(),
        |i: int|
            if peers[i].destination_hash == hash {
                p
            } else {
                peers[i]
            },
    )
}

/// The peers other than the one with this hash.
pub open spec fn other_peers(hash: Seq<u8>) -> spec_fn(PeerView) -> bool {
    |p: PeerView| p.destination_hash != hash
}

/// The place of a peer among peers that are distinct.
pub proof fn lemma_peer_at(peers: Seq<PeerView>, i: int)
    requires
        peers_distinct(peers),
        0 <= i < peers.len(),
    ensures
        has_peer(peers, peers[i].destination_hash),
        peer_of(peers, peers[i].destination_hash) == peers[i],
        forall|p: PeerView| #[trigger]
            peers.update(i, p) == with_peer(peers, peers[i].destination_hash, p),
{
    let hash = peers[i].destination_hash;
    let k = choose|k: int| 0 <= k < peers.len() && (#[trigger] peers[k]).destination_hash == hash;
    assert(peers[i].destination_hash == hash);
    if k < i {
        assert(peers[k].destination_hash != peers[i].destination_hash);
    } else if i < k {
        assert(peers[i].destination_hash != peers[k].destination_hash);
    }
    assert forall|p: PeerView| #[trigger]
        peers.update(i, p) == with_peer(peers, hash, p) by {
        assert forall|j: int| 0 <= j < peers.len() implies peers.update(i, p)[j] == with_peer(peers, hash, p)[j] by {
            if j < i {
                assert(peers[j].destination_hash != peers[i].destination_hash);
            } else if i < j {
                assert(peers[i].destination_hash != peers[j].destination_hash);
            }
        }
        assert(peers.update(i, p) =~= with_peer(peers, hash, p));
    }
}

/// Replacing a peer by one with the same hash keeps peers distinct.
pub proof fn lemma_with_peer_distinct(
    peers: Seq<PeerView>,
    hash: Seq<u8>,
    p: PeerView,
)
    requires
        peers_distinct(peers),
        p.destination_hash == hash,
    ensures
        peers_distinct(with_peer(peers, hash, p)),
{
    let after = with_peer(peers, hash, p);
    assert forall|i: int, j: int| 0 <= i < j < after.len() implies (#[trigger] after[i]).destination_hash != (
    #[trigger] after[j]).destination_hash by {
        assert(peers[i].destination_hash != peers[j].destination_hash);
    }
}

impl LxmfPropagationNode {
    /// What the node holds.
    pub open spec fn view(&self) -> NodeView {
        NodeView {
            settings: self.settings,
            entries: self.entries@,
            peers: peer_views(self.peers@),
            in_flight: self.in_flight_keys@,
            messages_received: self.messages_received,
            messages_served: self.messages_served,
            last_sync_tick: self.last_sync_tick,
            started_at: self.started_at,
            fresh: views(self.fresh_since_start@),
            backlog_hold_logged: self.backlog_hold_logged,
            window_start: self.outbound_sync_window_start,
            window_count: self.outbound_sync_window_count,
            msgs_per_min: self.outbound_sync_msgs_per_min,
            hold_logged: self.outbound_sync_hold_logged,
        }
    }

    /// What holds of every node that this module hands out.
    pub open spec fn wf(&self) -> bool {
        &&& self.entries.wf()
        &&& self.in_flight_keys.wf()
        &&& forall|i: int| 0 <= i < self.peers@.len() ==> (#[trigger] self.peers@[i]).wf()
        &&& peers_distinct(peer_views(self.peers@))
    }

    /// A node with no messages and no peers, started at `now`.
    pub fn new(settings: Settings, now: u64) -> (r: Self)
        ensures
            r.wf(),
            r@ == (NodeView {
                settings,
                entries: Seq::empty(),
                peers: Seq::empty(),
                in_flight: Seq::empty(),
                messages_received: 0,
                messages_served: 0,
                last_sync_tick: 0,
                started_at: now,
                fresh: Seq::empty(),
                backlog_hold_logged: false,
                window_start: now,
                window_count: 0,
                msgs_per_min: DEFAULT_OUTBOUND_SYNC_MSGS_PER_MIN,
                hold_logged: false,
            }),
    {
        let r: LxmfPropagationNode = LxmfPropagationNode {
            settings,
            entries: IdMap::new(),
            peers: Vec::new(),
            in_flight_keys: IdQueue::new(),
            messages_received: 0,
            messages_served: 0,
            last_sync_tick: 0,
            started_at: now,
            fresh_since_start: Vec::new(),
            backlog_hold_logged: false,
            outbound_sync_window_start: now,
            outbound_sync_window_count: 0,
            outbound_sync_msgs_per_min: DEFAULT_OUTBOUND_SYNC_MSGS_PER_MIN,
            outbound_sync_hold_logged: false,
        };
        assert(r@.peers =~= Seq::empty());
        assert(r@.fresh =~= Seq::empty());
        r
    }

    /// The place of the peer with this hash.
    pub fn position(&self, hash: &[u8]) -> (r: Option<usize>)
        requires
            self.wf(),
        ensures
            r is Some <==> has_peer(self@.peers, hash@),
            r matches Some(i) ==> i < self.peers@.len() && self@.peers[i as int].destination_hash == hash@
                && peer_of(self@.peers, hash@) == self@.peers[i as int],
            r matches Some(i) ==> forall|p: PeerView| #[trigger]
                self@.peers.update(i as int, p) == with_peer(self@.peers, hash@, p),
    {
        let ghost all = peer_views(self.peers@);
        let mut i: usize = 0;
        while i < self.peers.len()
            invariant
                self.wf(),
                all == peer_views(self.peers@),
                0 <= i <= self.peers@.len(),
                forall|j: int| 0 <= j < i ==> (#[trigger] all[j]).destination_hash != hash@,
            decreases self.peers@.len() - i,
        {
            assert(all[i as int].destination_hash == self.peers@[i as int].destination_hash@);
            if same_bytes(self.peers[i].destination_hash.as_slice(), hash) {
                proof {
                    lemma_peer_at(all, i as int);
                }
                return Some(i);
            }
            i += 1;
        }
        None
    }

    /// The wire form of the node's own announce at `now`.
    pub fn build_app_data(&self, now: u64) -> (r: Vec<u8>)
        ensures
            r@ == msgpack_write(
                own_announce(
                    now / crate::clock::SECOND,
                    self.settings.transfer_limit_bytes,
                    self.settings.sync_limit_bytes,
                    self.settings.stamp_cost,
                    self.settings.stamp_flexibility,
                    self.settings.peering_cost,
                    encode_utf8(self.settings.node_name@),
                ),
            ),
    {
        let name: Vec<u8> = copied(self.settings.node_name.as_str().as_bytes());
        encode_own_announce(
            now / crate::clock::SECOND,
            self.settings.transfer_limit_bytes,
            self.settings.sync_limit_bytes,
            self.settings.stamp_cost,
            self.settings.stamp_flexibility,
            self.settings.peering_cost,
            name,
        )
    }
}

/// The peer as an announce describes it.
pub open spec fn announced_peer(
    p: PeerView,
    a: AnnounceView,
    limits: (u64, u64),
    now: u64,
) -> PeerView {
    PeerView {
        alive: true,
        last_heard: now,
        peering_timebase: a.timebase,
        propagation_stamp_cost: Some(a.stamp_cost),
        propagation_stamp_flexibility: Some(a.stamp_flexibility),
        peering_cost: Some(a.peering_cost),
        propagation_transfer_limit: Some(limits.0),
        propagation_sync_limit: Some(limits.1),
        metadata: Some(a.metadata),
        ..p
    }
}

/// The peers after an announce of `hash`: a peer that is known is brought up
/// to date if the announce is newer, and one that is not known is taken up if
/// there is room. A peer that asks for too much work is left as it is.
pub open spec fn peered(
    peers: Seq<PeerView>,
    hash: Seq<u8>,
    a: AnnounceView,
    limits: (u64, u64),
    now: u64,
) -> Seq<PeerView> {
    if a.peering_cost > MAX_PEERING_COST {
        peers
    } else if has_peer(peers, hash) {
        if a.timebase > peer_of(peers, hash).peering_timebase {
            with_peer(peers, hash, announced_peer(peer_of(peers, hash), a, limits, now))
        } else {
            peers
        }
    } else if peers.len() < MAX_PEERS {
        peers.push(announced_peer(fresh_peer(hash), a, limits, now))
    } else {
        peers
    }
}

/// Whether a node acts on an announce: always on that of a configured peer,
/// and otherwise if it peers on its own, the announce was not asked for, and
/// the other node takes messages. It never acts on its own.
pub open spec fn acts_on_announce(
    settings: Settings,
    hash: Seq<u8>,
    enabled: bool,
    is_path_response: bool,
) -> bool {
    &&& hash != settings.destination_hash@
    &&& views(settings.static_peers@).contains(hash) || (settings.autopeer && !is_path_response
        && enabled)
}

impl LxmfPropagationNode {
    /// Takes up or brings up to date the peer that an announce describes, as
    /// [`peered`] says.
    pub fn peer(&mut self, hash: &[u8], announce: PropagationAnnounce, limits: (u64, u64), now: u64)
        requires
            old(self).wf(),
        ensures
            final(self).wf(),
            final(self)@ == (NodeView { peers: peered(old(self)@.peers, hash@, announce@, limits, now), ..old(self)@ }),
    {
        if announce.peering_cost > MAX_PEERING_COST {
            return;
        }
        let ghost before = self@.peers;
        match self.position(hash) {
            Some(i) => {
                let ghost was = self.peers@;
                if announce.timebase > self.peers[i].peering_timebase {
                    self.peers[i].alive = true;
                    self.peers[i].last_heard = now;
                    self.peers[i].peering_timebase = announce.timebase;
                    self.peers[i].propagation_stamp_cost = Some(announce.stamp_cost);
                    self.peers[i].propagation_stamp_flexibility = Some(announce.stamp_flexibility);
                    self.peers[i].peering_cost = Some(announce.peering_cost);
                    self.peers[i].propagation_transfer_limit = Some(limits.0);
                    self.peers[i].propagation_sync_limit = Some(limits.1);
                    self.peers[i].metadata = Some(announce.metadata);
                    proof {
                        let p = announced_peer(before[i as int], announce@, limits, now);
                        assert(self@.peers =~= before.update(i as int, p));
                        lemma_with_peer_distinct(before, hash@, p);
                    }
                }
            },
            None => {
                if self.peers.len() < MAX_PEERS {
                    let mut new: PropPeer = PropPeer::new(copied(hash));
                    new.alive = true;
                    new.last_heard = now;
                    new.peering_timebase = announce.timebase;
                    new.propagation_stamp_cost = Some(announce.stamp_cost);
                    new.propagation_stamp_flexibility = Some(announce.stamp_flexibility);
                    new.peering_cost = Some(announce.peering_cost);
                    new.propagation_transfer_limit = Some(limits.0);
                    new.propagation_sync_limit = Some(limits.1);
                    new.metadata = Some(announce.metadata);
                    let ghost p = new@;
                    self.peers.push(new);
                    assert(self@.peers =~= before.push(p));
                }
            },
        }
    }

    /// Acts on a valid announce of another node, as [`acts_on_announce`] and
    /// [`peered`] say.
    pub fn handle_propagation_announce(
        &mut self,
        hash: &[u8],
        announce: PropagationAnnounce,
        limits: (u64, u64),
        is_path_response: bool,
        now: u64,
    )
        requires
            old(self).wf(),
        ensures
            final(self).wf(),
            final(self)@ == (if acts_on_announce(old(self).settings, hash@, announce.enabled, is_path_response) {
                NodeView { peers: peered(old(self)@.peers, hash@, announce@, limits, now), ..old(self)@ }
            } else {
                old(self)@
            }),
    {
        if same_bytes(hash, self.settings.destination_hash.as_slice()) {
            return;
        }
        if holds(self.settings.static_peers.as_slice(), hash) || (self.settings.autopeer && !is_path_response
            && announce.enabled) {
            self.peer(hash, announce, limits, now);
        }
    }

    /// Takes up the configured peers that are not known yet.
    pub fn activate_static_peers(&mut self)
        requires
            old(self).wf(),
        ensures
            final(self).wf(),
            final(self)@ == (NodeView {
                peers: activated(old(self)@.peers, views(old(self).settings.static_peers@)),
                ..old(self)@
            }),
    {
        let ghost all = views(self.settings.static_peers@);
        let mut i: usize = 0;
        while i < self.settings.static_peers.len()
            invariant
                self.wf(),
                self.settings == old(self).settings,
                all == views(self.settings.static_peers@),
                0 <= i <= self.settings.static_peers@.len(),
                self@ == (NodeView { peers: activated(old(self)@.peers, all.take(i as int)), ..old(self)@ }),
            decreases self.settings.static_peers@.len() - i,
        {
            proof {
                assert(all.take(i + 1).drop_last() =~= all.take(i as int));
            }
            let ghost before = self@.peers;
            if self.position(self.settings.static_peers[i].as_slice()).is_none() {
                let new: PropPeer = PropPeer::new(copied(self.settings.static_peers[i].as_slice()));
                let ghost p = new@;
                self.peers.push(new);
                assert(self@.peers =~= before.push(p));
            }
            i += 1;
        }
        assert(all.take(all.len() as int) =~= all);
    }

    /// Gives up the peer with this hash.
    pub fn unpeer(&mut self, hash: &[u8])
        requires
            old(self).wf(),
        ensures
            final(self).wf(),
            final(self)@ == (NodeView { peers: old(self)@.peers.filter(other_peers(hash@)), ..old(self)@ }),
    {
        let ghost before = self@.peers;
        match self.position(hash) {
            Some(i) => {
                self.peers.remove(i);
                proof {
                    assert(self@.peers =~= before.remove(i as int));
                    lemma_unpeered(before, i as int);
                }
            },
            None => {
                proof {
                    lemma_filter_all(before, other_peers(hash@));
                }
            },
        }
    }
}

/// Taking one peer out leaves the others.
proof fn lemma_unpeered(peers: Seq<PeerView>, i: int)
    requires
        peers_distinct(peers),
        0 <= i < peers.len(),
    ensures
        peers.remove(i) == peers.filter(other_peers(peers[i].destination_hash)),
        peers_distinct(peers.remove(i)),
    decreases peers.len(),
{
    reveal(Seq::filter);
    let hash = peers[i].destination_hash;
    let keep = other_peers(hash);
    let last = peers.len() - 1;
    if i == last {
        assert forall|j: int| 0 <= j < peers.drop_last().len() implies keep(#[trigger] peers.drop_last()[j]) by {
            assert(peers[j].destination_hash != peers[i].destination_hash);
        }
        lemma_filter_all(peers.drop_last(), keep);
        assert(peers.remove(i) =~= peers.drop_last());
    } else {
        lemma_unpeered(peers.drop_last(), i);
        assert(peers[i].destination_hash != peers[last].destination_hash);
        assert(peers.remove(i) =~= peers.drop_last().remove(i).push(peers.last()));
    }
    let after = peers.remove(i);
    assert forall|a: int, b: int| 0 <= a < b < after.len() implies (#[trigger] after[a]).destination_hash != (
    #[trigger] after[b]).destination_hash by {
        let pa = if a < i { a } else { a + 1 };
        let pb = if b < i { b } else { b + 1 };
        assert(peers[pa].destination_hash != peers[pb].destination_hash);
    }
}

/// The peers with each of a list taken up unless it is known.
pub open spec fn activated(
    peers: Seq<PeerView>,
    hashes: Seq<Seq<u8>>,
) -> Seq<PeerView>
    decreases hashes.len(),
{
    if hashes.len() == 0 {
        peers
    } else {
        let rest = activated(peers, hashes.drop_last());
        if has_peer(rest, hashes.last()) {
            rest
        } else {
            rest.push(fresh_peer(hashes.last()))
        }
    }
}

/// A peer is found under its hash, and what takes its place stands where it
/// stood. The other peers are left alone.
pub proof fn law_other_peers_are_left_alone(peers: Seq<PeerView>, k: int, p: PeerView)
    requires
        peers_distinct(peers),
        0 <= k < peers.len(),
    ensures
        peer_of(peers, peers[k].destination_hash) == peers[k],
        with_peer(peers, peers[k].destination_hash, p).len() == peers.len(),
        with_peer(peers, peers[k].destination_hash, p)[k] == p,
        forall|i: int|
            0 <= i < peers.len() && i != k ==> #[trigger] with_peer(peers, peers[k].destination_hash, p)[i] == peers[i],
{
    lemma_peer_at(peers, k);
    assert forall|i: int| 0 <= i < peers.len() && i != k implies #[trigger] with_peer(
        peers,
        peers[k].destination_hash,
        p,
    )[i] == peers[i] by {
        if i < k {
            assert(peers[i].destination_hash != peers[k].destination_hash);
        } else {
            assert(peers[k].destination_hash != peers[i].destination_hash);
        }
    }
}

/// A peer that is given up is gone, and all others are still there.
pub proof fn law_only_the_named_peer_goes(peers: Seq<PeerView>, hash: Seq<u8>, p: PeerView)
    ensures
        peers.filter(other_peers(hash)).contains(p) <==> peers.contains(p) && p.destination_hash != hash,
{
    crate::octets::lemma_filter_holds(peers, other_peers(hash));
}

/// An announce of a known peer is taken up where it is newer than the last one
/// and asks for a key that costs no more than 26: the peer is then alive, was
/// heard now, and asks for what it announced. What waits for it, what is with
/// it and where the exchange with it stands are not touched, and neither is any
/// other peer.
pub proof fn law_newer_announce_is_taken_up(
    peers: Seq<PeerView>,
    k: int,
    a: AnnounceView,
    limits: (u64, u64),
    now: u64,
)
    requires
        peers_distinct(peers),
        0 <= k < peers.len(),
    ensures
        ({
            let after = peered(peers, peers[k].destination_hash, a, limits, now);
            &&& a.peering_cost > 26 || a.timebase <= peers[k].peering_timebase ==> after == peers
            &&& a.peering_cost <= 26 && a.timebase > peers[k].peering_timebase ==> {
                &&& after.len() == peers.len()
                &&& forall|i: int| 0 <= i < peers.len() && i != k ==> #[trigger] after[i] == peers[i]
                &&& after[k].destination_hash == peers[k].destination_hash
                &&& after[k].alive
                &&& after[k].last_heard == now
                &&& after[k].peering_timebase == a.timebase
                &&& after[k].propagation_stamp_cost == Some(a.stamp_cost)
                &&& after[k].propagation_stamp_flexibility == Some(a.stamp_flexibility)
                &&& after[k].peering_cost == Some(a.peering_cost)
                &&& after[k].propagation_transfer_limit == Some(limits.0)
                &&& after[k].propagation_sync_limit == Some(limits.1)
                &&& after[k].metadata == Some(a.metadata)
                &&& after[k].peering_key == peers[k].peering_key
                &&& after[k].sync_backoff == peers[k].sync_backoff
                &&& after[k].next_sync_attempt == peers[k].next_sync_attempt
                &&& after[k].last_sync_attempt == peers[k].last_sync_attempt
                &&& after[k].handled == peers[k].handled
                &&& after[k].unhandled == peers[k].unhandled
                &&& after[k].last_offer == peers[k].last_offer
                &&& after[k].link == peers[k].link
                &&& after[k].identified_link_id == peers[k].identified_link_id
                &&& after[k].state == peers[k].state
            }
        }),
{
    let hash = peers[k].destination_hash;
    lemma_peer_at(peers, k);
    law_other_peers_are_left_alone(peers, k, announced_peer(peers[k], a, limits, now));
}

/// A node that is no peer yet becomes one where its key costs no more than 26
/// and there are fewer than 20 peers. It stands behind the others, and is known
/// by what it announced. Where it does not become one, nothing changes.
pub proof fn law_announced_node_becomes_a_peer(
    peers: Seq<PeerView>,
    hash: Seq<u8>,
    a: AnnounceView,
    limits: (u64, u64),
    now: u64,
)
    requires
        forall|i: int| 0 <= i < peers.len() ==> (#[trigger] peers[i]).destination_hash != hash,
    ensures
        ({
            let after = peered(peers, hash, a, limits, now);
            &&& a.peering_cost > 26 || peers.len() >= 20 ==> after == peers
            &&& a.peering_cost <= 26 && peers.len() < 20 ==> {
                &&& after.len() == peers.len() + 1
                &&& after.drop_last() == peers
                &&& after.last().destination_hash == hash
                &&& after.last().alive
                &&& after.last().last_heard == now
                &&& after.last().peering_timebase == a.timebase
                &&& after.last().peering_cost == Some(a.peering_cost)
                &&& after.last().propagation_stamp_cost == Some(a.stamp_cost)
                &&& after.last().propagation_stamp_flexibility == Some(a.stamp_flexibility)
                &&& after.last().propagation_transfer_limit == Some(limits.0)
                &&& after.last().propagation_sync_limit == Some(limits.1)
                &&& after.last().metadata == Some(a.metadata)
                &&& after.last().peering_key is None
                &&& after.last().handled.len() == 0
                &&& after.last().unhandled.len() == 0
            }
        }),
{
    assert(!has_peer(peers, hash));
    let after = peered(peers, hash, a, limits, now);
    if a.peering_cost <= 26 && peers.len() < 20 {
        assert(after.drop_last() =~= peers);
    }
}

/// The node never acts on its own announce. It acts on those of the configured
/// peers, and on those of others where it looks for peers, the announce says
/// that the node is in service, and it was not asked for.
pub proof fn law_which_announces_count(settings: Settings, hash: Seq<u8>, enabled: bool, is_path_response: bool)
    ensures
        hash == settings.destination_hash@ ==> !acts_on_announce(settings, hash, enabled, is_path_response),
        hash != settings.destination_hash@ && (exists|i: int|
            0 <= i < settings.static_peers@.len() && (#[trigger] settings.static_peers@[i])@ == hash)
            ==> acts_on_announce(settings, hash, enabled, is_path_response),
        hash != settings.destination_hash@ && (forall|i: int|
            0 <= i < settings.static_peers@.len() ==> (#[trigger] settings.static_peers@[i])@ != hash) ==> (
        acts_on_announce(settings, hash, enabled, is_path_response) <==> settings.autopeer && enabled
            && !is_path_response),
{
    let list = views(settings.static_peers@);
    if list.contains(hash) {
        assert(settings.static_peers@[list.index_of(hash)]@ == hash);
    }
    if exists|i: int| 0 <= i < settings.static_peers@.len() && (#[trigger] settings.static_peers@[i])@ == hash {
        let i = choose|i: int|
            0 <= i < settings.static_peers@.len() && (#[trigger] settings.static_peers@[i])@ == hash;
        assert(list[i] == hash);
    }
}

/// Every node of a list is a peer once it is taken up. Those that were peers
/// stay as they are, none comes twice, and nobody else becomes one.
pub proof fn law_listed_nodes_become_peers(peers: Seq<PeerView>, hashes: Seq<Seq<u8>>)
    ensures
        ({
            let after = activated(peers, hashes);
            &&& peers.len() <= after.len() <= peers.len() + hashes.len()
            &&& after.take(peers.len() as int) == peers
            &&& forall|h: Seq<u8>|
                hashes.contains(h) ==> exists|i: int|
                    0 <= i < after.len() && #[trigger] after[i].destination_hash == h
            &&& forall|i: int|
                peers.len() <= i < after.len() ==> hashes.contains((#[trigger] after[i]).destination_hash) && after[i]
                    == fresh_peer(after[i].destination_hash)
            &&& peers_distinct(peers) ==> peers_distinct(after)
        }),
    decreases hashes.len(),
{
    let after = activated(peers, hashes);
    if hashes.len() == 0 {
        assert(after.take(peers.len() as int) =~= peers);
    } else {
        let front = hashes.drop_last();
        let last = hashes.last();
        let rest = activated(peers, front);
        law_listed_nodes_become_peers(peers, front);
        assert(hashes[hashes.len() - 1] == last);
        assert(after.take(peers.len() as int) =~= rest.take(peers.len() as int));
        assert forall|h: Seq<u8>| front.contains(h) implies #[trigger] hashes.contains(h) by {
            assert(hashes[front.index_of(h)] == h);
        }
        assert forall|h: Seq<u8>| hashes.contains(h) implies exists|i: int|
            0 <= i < after.len() && #[trigger] after[i].destination_hash == h by {
            let k = hashes.index_of(h);
            if k < front.len() {
                assert(front[k] == h);
                assert(front.contains(h));
                let i = choose|i: int| 0 <= i < rest.len() && #[trigger] rest[i].destination_hash == h;
                assert(after[i].destination_hash == h);
            } else if has_peer(rest, last) {
                let i = choose|i: int| 0 <= i < rest.len() && (#[trigger] rest[i]).destination_hash == last;
                assert(after[i].destination_hash == h);
            } else {
                assert(after[rest.len() as int].destination_hash == h);
            }
        }
        assert forall|i: int| peers.len() <= i < after.len() implies hashes.contains(
            (#[trigger] after[i]).destination_hash,
        ) && after[i] == fresh_peer(after[i].destination_hash) by {
            if i < rest.len() {
                assert(rest[i] == after[i]);
            }
        }
        if peers_distinct(peers) {
            assert forall|i: int, j: int| 0 <= i < j < after.len() implies (#[trigger] after[i]).destination_hash != (
            #[trigger] after[j]).destination_hash by {
                assert(rest[i] == after[i]);
                if j < rest.len() {
                    assert(rest[j] == after[j]);
                } else {
                    assert(!has_peer(rest, last));
                }
            }
        }
    }
}

/// What is configured counts. Where nothing is, a message costs 16 bits, of
/// which 3 may be missing, and peering 18, a message has up to 256 kilobytes, and
/// a sync up to 10 megabytes.
pub proof fn law_what_counts_where_nothing_is_configured(cost: u32, limit: u64)
    ensures
        or_default(Some(cost), DEFAULT_STAMP_COST) == cost,
        or_default(Some(limit), DEFAULT_SYNC_LIMIT) == limit,
        or_default(None, DEFAULT_STAMP_COST) == 16,
        or_default(None, DEFAULT_STAMP_FLEXIBILITY) == 3,
        or_default(None, DEFAULT_PEERING_COST) == 18,
        or_default(None, DEFAULT_TRANSFER_LIMIT) == 256 * 1024,
        or_default(None, DEFAULT_SYNC_LIMIT) == 10 * 1024 * 1024,
{
}

/// What a propagation node goes by is taken from the configuration: it takes
/// offers from its configured peers alone exactly where it does not look for
/// peers.
pub proof fn law_settings_of_a_node(
    config: &crate::config::NodeConfig,
    destination_hash: Vec<u8>,
    identity_hash: Vec<u8>,
    r: Settings,
)
    requires
        call_ensures(Settings::from_config, (config, destination_hash, identity_hash), r),
    ensures
        r.from_static_only <==> !config.lxmf_propagation_autopeer,
        r.autopeer <==> config.lxmf_propagation_autopeer,
        r.storage_limit_bytes == config.storage_limit_bytes,
        r.destination_hash@ == destination_hash@,
        r.identity_hash@ == identity_hash@,
        config.default_policy.stamp_cost is None ==> r.stamp_cost == 16,
        config.default_policy.stamp_cost is Some ==> r.stamp_cost == config.default_policy.stamp_cost->0,
        config.default_policy.stamp_flexibility is None ==> r.stamp_flexibility == 3,
        config.peering_cost is None ==> r.peering_cost == 18,
        config.peering_cost is Some ==> r.peering_cost == config.peering_cost->0,
        config.transfer_limit_bytes is None ==> r.transfer_limit_bytes == 256 * 1024,
        config.transfer_limit_bytes is Some ==> r.transfer_limit_bytes == config.transfer_limit_bytes->0,
        config.sync_limit_bytes is None ==> r.sync_limit_bytes == 10 * 1024 * 1024,
        config.sync_limit_bytes is Some ==> r.sync_limit_bytes == config.sync_limit_bytes->0,
{
}

/// An announce changes nothing but the peers, and these not at all where it is
/// the node's own, or where nobody has configured the node it is of and the node
/// does not look for peers.
pub proof fn law_what_an_announce_changes(
    node: &mut LxmfPropagationNode,
    hash: &[u8],
    announce: PropagationAnnounce,
    limits: (u64, u64),
    is_path_response: bool,
    now: u64,
)
    requires
        call_ensures(
            LxmfPropagationNode::handle_propagation_announce,
            (node, hash, announce, limits, is_path_response, now),
            (),
        ),
    ensures
        final(node)@ == (NodeView { peers: final(node)@.peers, ..old(node)@ }),
        hash@ == old(node).settings.destination_hash@ ==> final(node)@ == old(node)@,
        (forall|i: int|
            0 <= i < old(node).settings.static_peers@.len() ==> (#[trigger] old(node).settings.static_peers@[i])@
                != hash@) && (!old(node).settings.autopeer || is_path_response || !announce.enabled) ==> final(node)@
            == old(node)@,
        final(node)@.peers.len() <= old(node)@.peers.len() + 1,
        old(node)@.peers.len() >= 20 ==> final(node)@.peers.len() == old(node)@.peers.len(),
{
    law_which_announces_count(old(node).settings, hash@, announce.enabled, is_path_response);
}

/// A node that starts holds nothing and knows no peer, and pushes up to 600
/// messages in a minute.
pub proof fn law_node_that_starts(settings: Settings, now: u64, r: LxmfPropagationNode)
    requires
        call_ensures(LxmfPropagationNode::new, (settings, now), r),
    ensures
        r@.entries.len() == 0,
        r@.peers.len() == 0,
        r@.fresh.len() == 0,
        r@.in_flight.len() == 0,
        r@.msgs_per_min == 600,
        r@.started_at == now,
        r@.messages_received == 0,
        r@.messages_served == 0,
        r@.settings == settings,
{
}

} // verus!
