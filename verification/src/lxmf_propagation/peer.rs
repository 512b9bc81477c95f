//! A propagation peer: what it announced, what it still lacks, and where the
//! sync exchange with it stands.
use vstd::prelude::*;
use crate::lxmf_propagation::id_queue::IdQueue;
use crate::octets::joined;

verus! {

/// Sync state with a single propagation peer.
pub struct PropPeer {
    /// Hash of the peer's `lxmf.propagation` destination.
    pub destination_hash: Vec<u8>,
    /// Whether the peer has been heard.
    pub alive: bool,
    /// When the peer last announced or was last reached.
    pub last_heard: u64,
    /// The timestamp of the peer's latest announce, in the peer's own clock.
    pub peering_timebase: i64,
    /// Proof-of-work cost that the peer asks of a message.
    pub propagation_stamp_cost: Option<u32>,
    /// How far below the cost the peer still accepts.
    pub propagation_stamp_flexibility: Option<u32>,
    /// Proof-of-work cost of the key for peering with it.
    pub peering_cost: Option<u32>,
    /// The most bytes a message to the peer may take up.
    pub propagation_transfer_limit: Option<u64>,
    /// The bytes that all messages of an offer stay below.
    pub propagation_sync_limit: Option<u64>,
    /// The metadata of the peer's announce, in its wire form.
    pub metadata: Option<Vec<u8>>,
    /// The peering key and the proof-of-work value that it reached.
    pub peering_key: Option<(Vec<u8>, u32)>,
    /// How long the next attempt waits after a failure.
    pub sync_backoff: u64,
    /// When the next attempt is allowed.
    pub next_sync_attempt: u64,
    /// When the latest attempt was made.
    pub last_sync_attempt: u64,
    /// Messages that the peer has received or declined.
    pub handled_ids: IdQueue,
    /// Messages that the peer has not received yet.
    pub unhandled_ids: IdQueue,
    /// The messages of the latest offer.
    pub last_offer: Vec<Vec<u8>>,
    /// The link of the exchange that is under way.
    pub link: Option<Vec<u8>>,
    /// The link on which this node has identified itself.
    pub identified_link_id: Option<Vec<u8>>,
    /// Where the exchange stands.
    pub state: u8,
}

/// What a [`PropPeer`] holds.
pub struct PeerView {
    pub destination_hash: Seq<u8>,
    pub alive: bool,
    pub last_heard: u64,
    pub peering_timebase: i64,
    pub propagation_stamp_cost: Option<u32>,
    pub propagation_stamp_flexibility: Option<u32>,
    pub peering_cost: Option<u32>,
    pub propagation_transfer_limit: Option<u64>,
    pub propagation_sync_limit: Option<u64>,
    pub metadata: Option<Seq<u8>>,
    pub peering_key: Option<(Seq<u8>, u32)>,
    pub sync_backoff: u64,
    pub next_sync_attempt: u64,
    pub last_sync_attempt: u64,
    pub handled: Seq<Seq<u8>>,
    pub unhandled: Seq<Seq<u8>>,
    pub last_offer: Seq<Seq<u8>>,
    pub link: Option<Seq<u8>>,
    pub identified_link_id: Option<Seq<u8>>,
    pub state: u8,
}

/// A key with the value that it reached.
pub open spec fn key_view(key: Option<(Vec<u8>, u32)>) -> Option<(Seq<u8>, u32)> {
    match key {
        Some(k) => Some((k.0@, k.1)),
        None => None,
    }
}

impl View for PropPeer {
    type V = PeerView;

    open spec fn view(&self) -> PeerView {
        PeerView {
            destination_hash: self.destination_hash@,
            alive: self.alive,
            last_heard: self.last_heard,
            peering_timebase: self.peering_timebase,
            propagation_stamp_cost: self.propagation_stamp_cost,
            propagation_stamp_flexibility: self.propagation_stamp_flexibility,
            peering_cost: self.peering_cost,
            propagation_transfer_limit: self.propagation_transfer_limit,
            propagation_sync_limit: self.propagation_sync_limit,
            metadata: crate::octets::opt_view(self.metadata),
            peering_key: key_view(self.peering_key),
            sync_backoff: self.sync_backoff,
            next_sync_attempt: self.next_sync_attempt,
            last_sync_attempt: self.last_sync_attempt,
            handled: self.handled_ids@,
            unhandled: self.unhandled_ids@,
            last_offer: crate::octets::views(self.last_offer@),
            link: crate::octets::opt_view(self.link),
            identified_link_id: crate::octets::opt_view(self.identified_link_id),
            state: self.state,
        }
    }
}

/// A peer of which nothing is known but its destination.
pub open spec fn fresh_peer(destination_hash: Seq<u8>) -> PeerView {
    PeerView {
        destination_hash,
        alive: false,
        last_heard: 0,
        peering_timebase: 0,
        propagation_stamp_cost: None,
        propagation_stamp_flexibility: None,
        peering_cost: None,
        propagation_transfer_limit: None,
        propagation_sync_limit: None,
        metadata: None,
        peering_key: None,
        sync_backoff: 0,
        next_sync_attempt: 0,
        last_sync_attempt: 0,
        handled: Seq::empty(),
        unhandled: Seq::empty(),
        last_offer: Seq::empty(),
        link: None,
        identified_link_id: None,
        state: PropPeer::IDLE,
    }
}

/// Whether the peer's key is as strong as the peer asks.
pub open spec fn key_is_ready(p: PeerView) -> bool {
    match (p.peering_key, p.peering_cost) {
        (Some((_, value)), Some(cost)) => value >= cost,
        _ => false,
    }
}

/// The peer with one more message queued for it, unless it has the message.
pub open spec fn with_unhandled(p: PeerView, id: Seq<u8>) -> PeerView {
    if p.handled.contains(id) {
        p
    } else {
        PeerView { unhandled: crate::lxmf_propagation::id_queue::ids_with(p.unhandled, id), ..p }
    }
}

/// The peer with a message no longer queued, and known to be with it.
pub open spec fn with_handled(p: PeerView, id: Seq<u8>) -> PeerView {
    PeerView {
        unhandled: crate::lxmf_propagation::id_queue::ids_without(p.unhandled, id),
        handled: crate::lxmf_propagation::id_queue::ids_with(p.handled, id),
        ..p
    }
}

/// [`with_handled`] for each id of a list, one after the other.
pub open spec fn with_all_handled(p: PeerView, ids: Seq<Seq<u8>>) -> PeerView
    decreases ids.len(),
{
    if ids.len() == 0 {
        p
    } else {
        with_handled(with_all_handled(p, ids.drop_last()), ids.last())
    }
}

/// The peer with no trace of a message.
pub open spec fn without_message(p: PeerView, id: Seq<u8>) -> PeerView {
    PeerView {
        unhandled: crate::lxmf_propagation::id_queue::ids_without(p.unhandled, id),
        handled: crate::lxmf_propagation::id_queue::ids_without(p.handled, id),
        ..p
    }
}

/// [`without_message`] for each id of a list, one after the other.
pub open spec fn without_messages(p: PeerView, ids: Seq<Seq<u8>>) -> PeerView
    decreases ids.len(),
{
    if ids.len() == 0 {
        p
    } else {
        without_message(without_messages(p, ids.drop_last()), ids.last())
    }
}

/// A message that a peer has been marked with is not queued for it again.
pub proof fn law_handled_is_not_requeued(p: PeerView, id: Seq<u8>)
    ensures
        with_unhandled(with_handled(p, id), id) == with_handled(p, id),
        !with_handled(p, id).unhandled.contains(id),
        with_handled(p, id).handled.contains(id),
{
    let q = with_handled(p, id);
    crate::octets::lemma_filter_holds(p.unhandled, crate::lxmf_propagation::id_queue::other_than(id));
    if !p.handled.contains(id) {
        assert(q.handled[p.handled.len() as int] == id);
    }
}

/// No message is both queued for a peer and known to be with it, and queueing
/// and marking keep it so.
pub proof fn law_handled_and_unhandled_stay_apart(p: PeerView, id: Seq<u8>)
    requires
        forall|x: Seq<u8>| #[trigger] p.handled.contains(x) ==> !p.unhandled.contains(x),
    ensures
        forall|x: Seq<u8>| #[trigger]
            with_unhandled(p, id).handled.contains(x) ==> !with_unhandled(p, id).unhandled.contains(x),
        forall|x: Seq<u8>| #[trigger]
            with_handled(p, id).handled.contains(x) ==> !with_handled(p, id).unhandled.contains(x),
{
    crate::octets::lemma_filter_holds(p.unhandled, crate::lxmf_propagation::id_queue::other_than(id));
    assert forall|x: Seq<u8>| #[trigger]
        with_unhandled(p, id).handled.contains(x) implies !with_unhandled(p, id).unhandled.contains(x) by {
        let after = with_unhandled(p, id).unhandled;
        if after.contains(x) {
            let i = after.index_of(x);
            if i < p.unhandled.len() {
                assert(p.unhandled[i] == x);
                assert(p.unhandled.contains(x));
            }
        }
    }
    assert forall|x: Seq<u8>| #[trigger]
        with_handled(p, id).handled.contains(x) implies !with_handled(p, id).unhandled.contains(x) by {
        let after = with_handled(p, id).handled;
        let i = after.index_of(x);
        if i < p.handled.len() {
            assert(p.handled[i] == x);
            assert(p.handled.contains(x));
            assert(!p.unhandled.contains(x));
        }
        assert(!with_handled(p, id).unhandled.contains(x));
    }
}

/// What is left to do for a peering key.
pub enum KeyStep {
    /// Something that the key depends on is not known.
    Unknown,
    /// The key that is there is strong enough.
    Ready,
    /// A key of this cost is to be found for this material.
    Generate { cost: u32, material: Vec<u8> },
}

impl PropPeer {
    /// No exchange is under way.
    pub const IDLE: u8 = 0;

    /// A link is being opened.
    pub const LINK_ESTABLISHING: u8 = 1;

    /// A link is there.
    pub const LINK_READY: u8 = 2;

    /// An offer is out.
    pub const REQUEST_SENT: u8 = 3;

    /// The answer to an offer is in.
    pub const RESPONSE_RECEIVED: u8 = 4;

    /// What holds of every peer that this module hands out.
    pub open spec fn wf(&self) -> bool {
        self.handled_ids.wf() && self.unhandled_ids.wf()
    }

    /// A peer of which nothing is known but its destination.
    pub fn new(destination_hash: Vec<u8>) -> (r: Self)
        ensures
            r.wf(),
            r@ == fresh_peer(destination_hash@),
    {
        let r: PropPeer = PropPeer {
            destination_hash,
            alive: false,
            last_heard: 0,
            peering_timebase: 0,
            propagation_stamp_cost: None,
            propagation_stamp_flexibility: None,
            peering_cost: None,
            propagation_transfer_limit: None,
            propagation_sync_limit: None,
            metadata: None,
            peering_key: None,
            sync_backoff: 0,
            next_sync_attempt: 0,
            last_sync_attempt: 0,
            handled_ids: IdQueue::new(),
            unhandled_ids: IdQueue::new(),
            last_offer: Vec::new(),
            link: None,
            identified_link_id: None,
            state: PropPeer::IDLE,
        };
        assert(r@.last_offer =~= Seq::<Seq<u8>>::empty());
        r
    }

    /// Whether everything that a sync needs is known: what the peer asks of a
    /// message, and a key that is strong enough.
    pub fn sync_ready(&self) -> (r: bool)
        ensures
            r == (self.propagation_stamp_cost is Some && self.propagation_stamp_flexibility is Some
                && self.peering_cost is Some && key_is_ready(self@)),
    {
        self.propagation_stamp_cost.is_some() && self.propagation_stamp_flexibility.is_some()
            && self.peering_cost.is_some() && self.peering_key_ready()
    }

    /// Whether the peer's key is as strong as the peer asks.
    pub fn peering_key_ready(&self) -> (r: bool)
        ensures
            r == key_is_ready(self@),
    {
        if let Some(key) = &self.peering_key {
            if let Some(cost) = self.peering_cost {
                return key.1 >= cost;
            }
        }
        false
    }

    /// What is left to do for a peering key, given the identity hashes of the
    /// peer and of this node where they are known.
    pub fn key_step(&self, identity_hash: Option<&[u8]>, router_hash: Option<&[u8]>) -> (r: KeyStep)
        ensures
            r is Ready <==> self.peering_cost is Some && key_is_ready(self@),
            r is Generate <==> self.peering_cost is Some && !key_is_ready(self@) && identity_hash is Some
                && router_hash is Some,
            r matches KeyStep::Generate { cost, material } ==> Some(cost) == self.peering_cost && material@
                == identity_hash->0@ + router_hash->0@,
    {
        let cost: u32 = match self.peering_cost {
            Some(c) => c,
            None => return KeyStep::Unknown,
        };
        if self.peering_key_ready() {
            return KeyStep::Ready;
        }
        match (identity_hash, router_hash) {
            (Some(theirs), Some(ours)) => KeyStep::Generate { cost, material: joined(theirs, ours) },
            _ => KeyStep::Unknown,
        }
    }

    /// Takes a generated key in, if it is as strong as it was meant to be.
    /// Says whether it was.
    pub fn accept_key(&mut self, cost: u32, key: Option<Vec<u8>>, value: u32) -> (r: bool)
        ensures
            r == (value >= cost && key is Some),
            r ==> final(self)@ == (PeerView { peering_key: Some((key->0@, value)), ..old(self)@ }),
            !r ==> *final(self) == *old(self),
            old(self).wf() ==> final(self).wf(),
    {
        if value >= cost {
            if let Some(bytes) = key {
                self.peering_key = Some((bytes, value));
                return true;
            }
        }
        false
    }

    /// Queues a message for the peer, unless the peer has it or it is queued.
    pub fn add_unhandled(&mut self, transient_id: Vec<u8>)
        requires
            old(self).wf(),
        ensures
            final(self).wf(),
            final(self)@ == with_unhandled(old(self)@, transient_id@),
    {
        if !self.handled_ids.contains(transient_id.as_slice()) {
            self.unhandled_ids.push_unique(transient_id);
        }
    }

    /// Marks a message as one that the peer has, and takes it off the queue.
    pub fn mark_handled(&mut self, transient_id: &[u8])
        requires
            old(self).wf(),
        ensures
            final(self).wf(),
            final(self)@ == with_handled(old(self)@, transient_id@),
    {
        self.unhandled_ids.remove(transient_id);
        self.handled_ids.push_unique(crate::octets::copied(transient_id));
    }

    /// [`PropPeer::mark_handled`] for each id of a list.
    pub fn mark_all_handled(&mut self, ids: &Vec<Vec<u8>>)
        requires
            old(self).wf(),
        ensures
            final(self).wf(),
            final(self)@ == with_all_handled(old(self)@, crate::octets::views(ids@)),
    {
        let ghost all = crate::octets::views(ids@);
        let mut i: usize = 0;
        while i < ids.len()
            invariant
                self.wf(),
                0 <= i <= ids@.len(),
                all == crate::octets::views(ids@),
                self@ == with_all_handled(old(self)@, all.take(i as int)),
            decreases ids@.len() - i,
        {
            proof {
                assert(all.take(i + 1).drop_last() =~= all.take(i as int));
            }
            self.mark_handled(ids[i].as_slice());
            i += 1;
        }
        assert(all.take(ids@.len() as int) =~= all);
    }

    /// Drops every trace of the messages of a list.
    pub fn forget(&mut self, ids: &Vec<Vec<u8>>)
        requires
            old(self).wf(),
        ensures
            final(self).wf(),
            final(self)@ == without_messages(old(self)@, crate::octets::views(ids@)),
    {
        let ghost all = crate::octets::views(ids@);
        let mut i: usize = 0;
        while i < ids.len()
            invariant
                self.wf(),
                0 <= i <= ids@.len(),
                all == crate::octets::views(ids@),
                self@ == without_messages(old(self)@, all.take(i as int)),
            decreases ids@.len() - i,
        {
            proof {
                assert(all.take(i + 1).drop_last() =~= all.take(i as int));
            }
            self.handled_ids.remove(ids[i].as_slice());
            self.unhandled_ids.remove(ids[i].as_slice());
            i += 1;
        }
        assert(all.take(ids@.len() as int) =~= all);
    }
}

/// Messages that are marked as with a peer are known to be with it and wait for
/// it no longer. Nothing else about the peer changes, and no other message.
pub proof fn law_marked_messages_are_with_the_peer(p: PeerView, ids: Seq<Seq<u8>>, x: Seq<u8>)
    ensures
        with_all_handled(p, ids).handled.contains(x) <==> p.handled.contains(x) || ids.contains(x),
        with_all_handled(p, ids).unhandled.contains(x) <==> p.unhandled.contains(x) && !ids.contains(x),
        with_all_handled(p, ids) == (PeerView {
            handled: with_all_handled(p, ids).handled,
            unhandled: with_all_handled(p, ids).unhandled,
            ..p
        }),
    decreases ids.len(),
{
    if ids.len() > 0 {
        let rest = ids.drop_last();
        let before = with_all_handled(p, rest);
        law_marked_messages_are_with_the_peer(p, rest, x);
        crate::lxmf_propagation::id_queue::law_one_more_id(before.handled, ids.last());
        crate::lxmf_propagation::id_queue::law_one_id_less(before.unhandled, ids.last());
        lemma_in_front_or_last(ids, x);
    }
}

/// Messages that are forgotten neither wait for a peer nor count as with it.
/// Nothing else about the peer changes, and no other message.
pub proof fn law_forgotten_messages_are_nowhere(p: PeerView, ids: Seq<Seq<u8>>, x: Seq<u8>)
    ensures
        without_messages(p, ids).handled.contains(x) <==> p.handled.contains(x) && !ids.contains(x),
        without_messages(p, ids).unhandled.contains(x) <==> p.unhandled.contains(x) && !ids.contains(x),
        without_messages(p, ids) == (PeerView {
            handled: without_messages(p, ids).handled,
            unhandled: without_messages(p, ids).unhandled,
            ..p
        }),
    decreases ids.len(),
{
    if ids.len() > 0 {
        let rest = ids.drop_last();
        let before = without_messages(p, rest);
        law_forgotten_messages_are_nowhere(p, rest, x);
        crate::lxmf_propagation::id_queue::law_one_id_less(before.handled, ids.last());
        crate::lxmf_propagation::id_queue::law_one_id_less(before.unhandled, ids.last());
        lemma_in_front_or_last(ids, x);
    }
}

proof fn lemma_in_front_or_last(ids: Seq<Seq<u8>>, x: Seq<u8>)
    requires
        ids.len() > 0,
    ensures
        ids.contains(x) <==> ids.drop_last().contains(x) || x == ids.last(),
{
    let rest = ids.drop_last();
    if ids.contains(x) {
        let k = ids.index_of(x);
        if k < rest.len() {
            assert(rest[k] == x);
        }
    }
    if rest.contains(x) {
        assert(ids[rest.index_of(x)] == x);
    }
    assert(ids[ids.len() - 1] == ids.last());
}

/// A message waits for a peer once it is queued for it, behind those that do,
/// unless it is known to be with the peer.
pub proof fn law_queued_message_waits(p: PeerView, id: Seq<u8>)
    ensures
        p.handled.contains(id) ==> with_unhandled(p, id) == p,
        !p.handled.contains(id) && !p.unhandled.contains(id) ==> with_unhandled(p, id) == (PeerView {
            unhandled: p.unhandled + seq![id],
            ..p
        }),
        p.unhandled.contains(id) ==> with_unhandled(p, id) == p,
{
    assert(p.unhandled.push(id) =~= p.unhandled + seq![id]);
}

/// A key opens a peer exactly where its worth is at least the cost that the peer
/// announced.
pub proof fn law_key_must_be_worth_the_cost(p: PeerView)
    ensures
        key_is_ready(p) <==> (p.peering_key matches Some(key) && (p.peering_cost matches Some(cost) && key.1 >= cost)),
{
}

/// Of a peer that was only named nothing is known, and nothing waits for it.
pub proof fn law_fresh_peer_is_unknown(hash: Seq<u8>)
    ensures
        ({
            let p = fresh_peer(hash);
            &&& p.destination_hash == hash
            &&& !p.alive
            &&& p.last_heard == 0
            &&& p.peering_timebase == 0
            &&& p.propagation_stamp_cost is None
            &&& p.propagation_stamp_flexibility is None
            &&& p.propagation_transfer_limit is None
            &&& p.propagation_sync_limit is None
            &&& p.metadata is None
            &&& p.identified_link_id is None
            &&& p.last_sync_attempt == 0
            &&& p.handled.len() == 0
            &&& p.unhandled.len() == 0
            &&& p.last_offer.len() == 0
            &&& p.link is None
            &&& p.peering_key is None
            &&& p.peering_cost is None
            &&& p.next_sync_attempt == 0
            &&& p.sync_backoff == 0
            &&& p.state == PropPeer::IDLE
        }),
{
}

/// A key is found for a peer exactly where the peer named its cost, the key that
/// is there does not reach it, and both identities are known: a key of that cost,
/// bound to the identity of the peer and then to that of the node.
pub proof fn law_when_a_key_is_found(
    peer: &PropPeer,
    identity: Option<&[u8]>,
    router: Option<&[u8]>,
    r: KeyStep,
)
    requires
        call_ensures(PropPeer::key_step, (peer, identity, router), r),
    ensures
        ({
            let enough = peer@.peering_cost matches Some(cost) && (peer@.peering_key matches Some(key) && key.1
                >= cost);
            &&& r is Ready <==> enough
            &&& r is Generate <==> peer@.peering_cost is Some && !enough && identity is Some && router is Some
            &&& r matches KeyStep::Generate { cost, material } ==> Some(cost) == peer@.peering_cost && material@
                == identity->0@ + router->0@
        }),
{
}

/// A key that was found is kept exactly where it is worth what it should be, and
/// the peer is not touched otherwise.
pub proof fn law_key_must_be_strong_enough(
    peer: &mut PropPeer,
    cost: u32,
    key: Option<Vec<u8>>,
    value: u32,
    r: bool,
)
    requires
        call_ensures(PropPeer::accept_key, (peer, cost, key, value), r),
    ensures
        r <==> key is Some && value >= cost,
        r ==> final(peer)@.peering_key == Some((key->0@, value)),
        !r ==> final(peer)@ == old(peer)@,
        final(peer)@.unhandled == old(peer)@.unhandled,
        final(peer)@.handled == old(peer)@.handled,
{
}

} // verus!
