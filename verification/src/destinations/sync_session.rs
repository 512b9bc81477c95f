//! The exchange of blobs with another node.
//!
//! Over a link, a node offers the ids of the blobs that it has, and is told
//! those of the other node with their channels. It asks for what it lacks of
//! the channels that someone here is subscribed to, and of the identities that
//! have a device here, and delivers what comes.
use vstd::prelude::*;
use crate::blob_store::{names_of, BlobMeta};
use crate::deferred_queue::{enqueued, Deferred};
use crate::destinations::backup::Reach;
use crate::destinations::fed_node::FedNode;
use crate::distro::{device_views, for_distro, is_distro_of, Device, DistroEntry};
use crate::fanout::{firsts, limits_of, FanoutPlan};
use crate::handoff::{defer_then_wake, registrations_for, Unconfirmed};
use crate::id_map::{has_key, keys_of};
use crate::msgpack::{
    hash_list_read, hash_list_write, list_fits, pair_list_read, pair_list_write, pair_views, pairs_fit, read_hash_list,
    read_pair_list, read_triple_list, triple_list_read, triple_list_write, triples_fit, write_hash_list, write_pair_list,
    write_triple_list,
};
use crate::notify::{of_channel, registration_views, NotifyRegistration, Registration};
use crate::octets::{copied, holds, views};
use crate::subscription::{channels_of, owned_subscribers_of, owned_views, to_channel, triple_views, Subscription};

verus! {

/// After a link to a peer could not be had, the time until the next try.
pub const SYNC_RETRY: u64 = 5_000_000_000;

/// The blobs of an answer, given what was read of it.
pub open spec fn sent_blobs(read: Option<Seq<(Seq<u8>, Seq<u8>, Seq<u8>)>>) -> Seq<(Seq<u8>, Seq<u8>, Seq<u8>)> {
    match read {
        Some(list) => list,
        None => Seq::empty(),
    }
}

/// Whether anyone here wants the blobs of a channel: a subscriber, or a device
/// that is registered for the identity it stands for.
pub open spec fn is_wanted(subs: Seq<Subscription>, devices: Seq<Device>, channel: Seq<u8>) -> bool {
    channels_of(subs).contains(channel) || is_distro_of(devices, channel)
}

/// The ids of blobs that a peer has and that are lacking here, of channels
/// that are wanted.
pub open spec fn gap_of(
    blobs: Seq<(Seq<u8>, BlobMeta)>,
    subs: Seq<Subscription>,
    devices: Seq<Device>,
    pairs: Seq<(Seq<u8>, Seq<u8>)>,
) -> Seq<Seq<u8>>
    decreases pairs.len(),
{
    if pairs.len() == 0 {
        Seq::empty()
    } else {
        let rest = gap_of(blobs, subs, devices, pairs.drop_last());
        if is_wanted(subs, devices, pairs.last().0) && !has_key(blobs, pairs.last().1) {
            rest.push(pairs.last().1)
        } else {
            rest
        }
    }
}

/// Nothing is asked for that is here already, or that no one wants.
pub proof fn law_only_what_lacks_is_asked_for(
    blobs: Seq<(Seq<u8>, BlobMeta)>,
    subs: Seq<Subscription>,
    devices: Seq<Device>,
    pairs: Seq<(Seq<u8>, Seq<u8>)>,
    id: Seq<u8>,
)
    ensures
        gap_of(blobs, subs, devices, pairs).contains(id) <==> !has_key(blobs, id) && exists|i: int|
            0 <= i < pairs.len() && (#[trigger] pairs[i]).1 == id && is_wanted(subs, devices, pairs[i].0),
    decreases pairs.len(),
{
    let g = gap_of(blobs, subs, devices, pairs);
    if pairs.len() > 0 {
        let rest = pairs.drop_last();
        let gr = gap_of(blobs, subs, devices, rest);
        law_only_what_lacks_is_asked_for(blobs, subs, devices, rest, id);
        if g.contains(id) {
            let k = g.index_of(id);
            if k < gr.len() {
                assert(gr[k] == id);
                assert(gr.contains(id));
                let i = choose|i: int|
                    0 <= i < rest.len() && (#[trigger] rest[i]).1 == id && is_wanted(subs, devices, rest[i].0);
                assert(pairs[i] == rest[i]);
            } else {
                assert(pairs[pairs.len() - 1].1 == id);
            }
        }
        if !has_key(blobs, id) && exists|i: int|
            0 <= i < pairs.len() && (#[trigger] pairs[i]).1 == id && is_wanted(subs, devices, pairs[i].0) {
            let i = choose|i: int|
                0 <= i < pairs.len() && (#[trigger] pairs[i]).1 == id && is_wanted(subs, devices, pairs[i].0);
            if i < rest.len() {
                assert(rest[i] == pairs[i]);
                assert(gr.contains(id));
                let k = gr.index_of(id);
                assert(g[k] == id);
            } else {
                assert(g[g.len() - 1] == id);
            }
        }
    }
}

/// What comes next in an exchange.
pub enum SessionStep {
    /// The blobs that this request names are to be asked for.
    Fetch(Vec<u8>),
    /// The exchange is over: well or not.
    Finish(bool),
}

/// A blob that came, and whom it is for.
pub struct Arrival {
    /// The subscribers of the channel.
    pub plan: FanoutPlan,
    /// The devices, where the blob is for a shared identity.
    pub devices: Option<Vec<DistroEntry>>,
}

/// What waits, once a blob waits for each of a list of devices, as many for
/// each as its tier allows.
pub open spec fn with_device_misses(
    node: FedNode,
    entries: Seq<Deferred>,
    missed: Seq<Unconfirmed>,
    routing: Seq<u8>,
    blob: Seq<u8>,
    now: u64,
) -> Seq<Deferred>
    decreases missed.len(),
{
    if missed.len() == 0 {
        entries
    } else {
        enqueued(
            with_device_misses(node, entries, missed.drop_last(), routing, blob, now),
            Deferred { subscriber: missed.last().queue_key@, channel: routing, blob, enqueued_at: now },
            node.config.spec_policy_for(missed.last().queue_key@).deferred_queue_limit as nat,
            node.deferred_queue.global_limit as nat,
        )
    }
}

/// The registrations of a list of devices for directly addressed messages.
pub open spec fn device_relays(regs: Seq<Registration>, missed: Seq<Unconfirmed>) -> Seq<Registration>
    decreases missed.len(),
{
    if missed.len() == 0 {
        Seq::empty()
    } else {
        device_relays(regs, missed.drop_last()) + regs.filter(of_channel(missed.last().wake_key@, None))
    }
}

impl FedNode {
    /// The blobs that are held: their channels and their ids.
    pub fn local_manifest(&self) -> (r: Vec<(Vec<u8>, Vec<u8>)>)
        ensures
            pair_views(r@) == names_of(self.blob_store@.blobs),
    {
        let ghost all = names_of(self.blob_store@.blobs);
        let pairs: Vec<(&Vec<u8>, &BlobMeta)> = self.blob_store.index.pairs();
        let mut out: Vec<(Vec<u8>, Vec<u8>)> = Vec::new();
        let mut i: usize = 0;
        assert(pair_views(out@) =~= all.take(0));
        while i < pairs.len()
            invariant
                0 <= i <= pairs@.len(),
                all == names_of(self.blob_store@.blobs),
                pairs@.len() == self.blob_store@.blobs.len(),
                forall|j: int|
                    0 <= j < pairs@.len() ==> (#[trigger] pairs@[j]).0@ == self.blob_store@.blobs[j].0 && *pairs@[j].1
                        == self.blob_store@.blobs[j].1,
                pair_views(out@) == all.take(i as int),
            decreases pairs@.len() - i,
        {
            let ghost was = pair_views(out@);
            let item: (Vec<u8>, Vec<u8>) = (
                copied(pairs[i].1.destination_hash.as_slice()),
                copied(pairs[i].0.as_slice()),
            );
            out.push(item);
            proof {
                assert(pairs@[i as int].0@ == self.blob_store@.blobs[i as int].0);
                assert(all[i as int] == (item.0@, item.1@));
                assert(pair_views(out@) =~= was.push((item.0@, item.1@)));
                assert(all.take(i + 1) =~= all.take(i as int).push(all[i as int]));
            }
            i += 1;
        }
        assert(all.take(all.len() as int) =~= all);
        out
    }

    /// What is sent to begin an exchange: the ids of the blobs that are held.
    pub fn offer_payload(&self) -> (r: Vec<u8>)
        ensures
            r@ == hash_list_write(keys_of(self.blob_store@.blobs)),
            list_fits(keys_of(self.blob_store@.blobs)) ==> hash_list_read(r@) == Some(
                keys_of(self.blob_store@.blobs),
            ),
    {
        write_hash_list(&self.blob_store.all_message_ids())
    }

    /// The answer to an offer: what is held here. The ids that are offered do
    /// not change it.
    pub fn on_offer(&self, _offered: &[u8]) -> (r: Vec<u8>)
        ensures
            r@ == pair_list_write(names_of(self.blob_store@.blobs)),
            pairs_fit(names_of(self.blob_store@.blobs)) ==> pair_list_read(r@) == Some(
                names_of(self.blob_store@.blobs),
            ),
    {
        write_pair_list(&self.local_manifest())
    }

    /// The ids that a request for blobs names, and none where it cannot be
    /// read.
    pub fn requested_ids(data: &[u8]) -> (r: Vec<Vec<u8>>)
        ensures
            views(r@) == (match hash_list_read(data@) {
                Some(list) => list,
                None => Seq::empty(),
            }),
    {
        match read_hash_list(data) {
            Some(list) => list,
            None => {
                let none: Vec<Vec<u8>> = Vec::new();
                assert(views(none@) =~= Seq::empty());
                none
            },
        }
    }

    /// The answer to a request for blobs: each with its channel and its id. Who
    /// takes it gets the blobs, as long as the lengths fit.
    pub fn encode_blobs(blobs: &Vec<(Vec<u8>, Vec<u8>, Vec<u8>)>) -> (r: Vec<u8>)
        ensures
            r@ == triple_list_write(triple_views(blobs@)),
            triples_fit(triple_views(blobs@)) ==> sent_blobs(triple_list_read(r@)) == triple_views(blobs@),
    {
        write_triple_list(blobs)
    }

    /// The blobs of an answer, each with its channel and its id, and none where
    /// it cannot be read.
    pub fn decode_blobs(data: &[u8]) -> (r: Vec<(Vec<u8>, Vec<u8>, Vec<u8>)>)
        ensures
            triple_views(r@) == sent_blobs(triple_list_read(data@)),
    {
        match read_triple_list(data) {
            Some(list) => list,
            None => {
                let none: Vec<(Vec<u8>, Vec<u8>, Vec<u8>)> = Vec::new();
                assert(triple_views(none@) =~= Seq::empty());
                none
            },
        }
    }

    /// The ids of what a peer has and is lacking here, as [`gap_of`] says.
    pub fn gap_from_peer(&self, pairs: &Vec<(Vec<u8>, Vec<u8>)>) -> (r: Vec<Vec<u8>>)
        requires
            self.wf(),
        ensures
            views(r@) == gap_of(
                self.blob_store@.blobs,
                self.subscription_table@,
                self.distro_table@,
                pair_views(pairs@),
            ),
    {
        let channels: Vec<Vec<u8>> = self.subscription_table.subscribed_channel_hashes();
        proof {
            crate::octets::law_distinct_of(channels_of(self.subscription_table@));
        }
        let ghost all = pair_views(pairs@);
        let mut out: Vec<Vec<u8>> = Vec::new();
        let mut i: usize = 0;
        assert(views(out@) =~= Seq::empty());
        while i < pairs.len()
            invariant
                self.wf(),
                0 <= i <= pairs@.len(),
                all == pair_views(pairs@),
                forall|c: Seq<u8>|
                    #[trigger] views(channels@).contains(c) <==> channels_of(self.subscription_table@).contains(c),
                views(out@) == gap_of(
                    self.blob_store@.blobs,
                    self.subscription_table@,
                    self.distro_table@,
                    all.take(i as int),
                ),
            decreases pairs@.len() - i,
        {
            let channel: &Vec<u8> = &pairs[i].0;
            let id: &Vec<u8> = &pairs[i].1;
            proof {
                assert(all.take(i + 1).drop_last() =~= all.take(i as int));
                assert(all.take(i + 1).last() == (channel@, id@));
                assert(views(channels@).contains(channel@) <==> channels_of(self.subscription_table@).contains(
                    channel@,
                ));
            }
            let wanted: bool = holds(channels.as_slice(), channel.as_slice()) || self.distro_table.is_distro(
                channel.as_slice(),
            );
            if wanted && !self.blob_store.contains(id.as_slice()) {
                let ghost was = views(out@);
                let item: Vec<u8> = copied(id.as_slice());
                out.push(item);
                assert(views(out@) =~= was.push(item@));
            }
            i += 1;
        }
        assert(all.take(all.len() as int) =~= all);
        out
    }

    /// What comes after the answer to an offer. Without an answer the exchange
    /// has failed; an answer that cannot be read stands for nothing; and where
    /// nothing is lacking the exchange is over.
    pub fn on_offer_answer(&self, response: Option<&[u8]>) -> (r: SessionStep)
        requires
            self.wf(),
        ensures
            response is None ==> r == SessionStep::Finish(false),
            response matches Some(bytes) ==> {
                let pairs = match pair_list_read(bytes@) {
                    Some(list) => list,
                    None => Seq::empty(),
                };
                let want = gap_of(self.blob_store@.blobs, self.subscription_table@, self.distro_table@, pairs);
                &&& want.len() == 0 ==> r == SessionStep::Finish(true)
                &&& want.len() > 0 ==> (r matches SessionStep::Fetch(payload) && payload@ == hash_list_write(want))
            },
    {
        match response {
            None => SessionStep::Finish(false),
            Some(bytes) => {
                let pairs: Vec<(Vec<u8>, Vec<u8>)> = match read_pair_list(bytes) {
                    Some(list) => list,
                    None => {
                        let none: Vec<(Vec<u8>, Vec<u8>)> = Vec::new();
                        assert(pair_views(none@) =~= Seq::empty());
                        none
                    },
                };
                let want: Vec<Vec<u8>> = self.gap_from_peer(&pairs);
                assert(views(want@).len() == want@.len());
                if want.len() == 0 {
                    SessionStep::Finish(true)
                } else {
                    SessionStep::Fetch(write_hash_list(&want))
                }
            },
        }
    }

    /// Whom a blob that came is for.
    pub fn plan_arrival(&self, routing_hash: &[u8]) -> (r: Arrival)
        ensures
            owned_views(r.plan.subscribers@) == owned_subscribers_of(
                self.subscription_table@.filter(to_channel(routing_hash@)),
            ),
            r.plan.deferred_limits.wf(),
            r.plan.deferred_limits@ == limits_of(self.config, firsts(owned_views(r.plan.subscribers@))),
            r.devices is Some <==> is_distro_of(self.distro_table@, routing_hash@),
            r.devices matches Some(list) ==> device_views(list@) == self.distro_table@.filter(for_distro(routing_hash@)),
    {
        let devices: Option<Vec<DistroEntry>> = if self.distro_table.is_distro(routing_hash) {
            Some(self.distro_table.devices_snapshot(routing_hash))
        } else {
            None
        };
        Arrival { plan: self.plan_channel_fanout(routing_hash), devices }
    }

    /// The registrations through which devices that missed a message are to be
    /// woken.
    pub fn relays_of_missed(&self, missed: &Vec<Unconfirmed>) -> (r: Vec<NotifyRegistration>)
        ensures
            registration_views(r@) == device_relays(self.notify_registry@, missed@),
    {
        let ghost all = missed@;
        let mut out: Vec<NotifyRegistration> = Vec::new();
        let mut i: usize = 0;
        assert(registration_views(out@) =~= Seq::empty());
        while i < missed.len()
            invariant
                0 <= i <= missed@.len(),
                all == missed@,
                registration_views(out@) == device_relays(self.notify_registry@, all.take(i as int)),
            decreases missed@.len() - i,
        {
            proof {
                assert(all.take(i + 1).drop_last() =~= all.take(i as int));
                assert(all.take(i + 1).last() == missed@[i as int]);
            }
            let ghost was = out@;
            let mut found: Vec<NotifyRegistration> = registrations_for(
                &self.notify_registry,
                missed[i].wake_key.as_slice(),
                None,
            );
            let ghost more = found@;
            out.append(&mut found);
            assert(registration_views(out@) =~= registration_views(was) + registration_views(more));
            i += 1;
        }
        assert(all.take(all.len() as int) =~= all);
        out
    }

    /// Lets a blob wait for devices that missed it, and returns the
    /// registrations through which they are to be woken.
    pub fn defer_missed_devices(
        &mut self,
        missed: &Vec<Unconfirmed>,
        routing_hash: &[u8],
        blob: &[u8],
        now: u64,
    ) -> (r: Vec<NotifyRegistration>)
        ensures
            *final(self) == (FedNode { deferred_queue: final(self).deferred_queue, ..*old(self) }),
            final(self).deferred_queue.global_limit == old(self).deferred_queue.global_limit,
            final(self).deferred_queue@ == with_device_misses(
                *old(self),
                old(self).deferred_queue@,
                missed@,
                routing_hash@,
                blob@,
                now,
            ),
            registration_views(r@) == device_relays(old(self).notify_registry@, missed@),
    {
        let ghost all = missed@;
        let ghost start = *self;
        let mut out: Vec<NotifyRegistration> = Vec::new();
        let mut i: usize = 0;
        assert(registration_views(out@) =~= Seq::empty());
        while i < missed.len()
            invariant
                0 <= i <= missed@.len(),
                all == missed@,
                start == *old(self),
                *self == (FedNode { deferred_queue: self.deferred_queue, ..start }),
                self.deferred_queue.global_limit == start.deferred_queue.global_limit,
                self.deferred_queue@ == with_device_misses(
                    start,
                    start.deferred_queue@,
                    all.take(i as int),
                    routing_hash@,
                    blob@,
                    now,
                ),
                registration_views(out@) == device_relays(start.notify_registry@, all.take(i as int)),
            decreases missed@.len() - i,
        {
            proof {
                assert(all.take(i + 1).drop_last() =~= all.take(i as int));
                assert(all.take(i + 1).last() == missed@[i as int]);
            }
            let limit: usize = self.config.policy_for(missed[i].queue_key.as_slice()).deferred_queue_limit;
            let ghost was = out@;
            let mut found: Vec<NotifyRegistration> = defer_then_wake(
                &mut self.deferred_queue,
                &self.notify_registry,
                &missed[i],
                limit,
                routing_hash,
                blob,
                None,
                now,
            );
            let ghost more = found@;
            out.append(&mut found);
            assert(registration_views(out@) =~= registration_views(was) + registration_views(more));
            i += 1;
        }
        assert(all.take(all.len() as int) =~= all);
        out
    }

    /// Keeps the links that are still open.
    pub fn keep_sync_links(&mut self, open: Vec<Vec<u8>>)
        ensures
            *final(self) == (FedNode { sync_links: open, ..*old(self) }),
    {
        self.sync_links = open;
    }

    /// Whether a link to a peer that is due is to be opened: none is open.
    pub fn wants_sync_link(&self, peer_hash: &[u8]) -> (r: bool)
        ensures
            r == !views(self.sync_links@).contains(peer_hash@),
    {
        !holds(self.sync_links.as_slice(), peer_hash)
    }

    /// Notes how far the way to a peer that is due was found.
    pub fn sync_link_tried(&mut self, peer_hash: &[u8], reach: Reach, now: u64) -> (r: SyncLinkPlan)
        ensures
            *final(self) == (FedNode { sync_links: final(self).sync_links, ..*old(self) }),
            r.started == (reach == Reach::Opening),
            r.started ==> views(final(self).sync_links@) == views(old(self).sync_links@).push(peer_hash@),
            !r.started ==> *final(self) == *old(self),
            r.request_path == (reach == Reach::UnknownIdentity),
            r.retry_at is Some <==> reach == Reach::NotReady || reach == Reach::UnknownIdentity,
            r.retry_at matches Some(t) ==> t == (if now + SYNC_RETRY > u64::MAX {
                u64::MAX as int
            } else {
                now + SYNC_RETRY
            }),
    {
        let retry: u64 = if now > u64::MAX - SYNC_RETRY {
            u64::MAX
        } else {
            now + SYNC_RETRY
        };
        let started: bool = matches!(reach, Reach::Opening);
        if started {
            let ghost was = views(self.sync_links@);
            let item: Vec<u8> = copied(peer_hash);
            self.sync_links.push(item);
            assert(views(self.sync_links@) =~= was.push(item@));
        }
        SyncLinkPlan {
            started,
            request_path: matches!(reach, Reach::UnknownIdentity),
            retry_at: if matches!(reach, Reach::NotReady) || matches!(reach, Reach::UnknownIdentity) {
                Some(retry)
            } else {
                None
            },
        }
    }
}

/// What is to be done for a peer that is due.
pub struct SyncLinkPlan {
    /// Whether an exchange has begun.
    pub started: bool,
    /// Whether a path is to be asked for.
    pub request_path: bool,
    /// When to try again, where that is soon.
    pub retry_at: Option<u64>,
}

/// What is asked for out of two lists one after the other is what is asked for
/// out of each of them.
pub proof fn law_gaps_add_up(
    blobs: Seq<(Seq<u8>, BlobMeta)>,
    subs: Seq<Subscription>,
    devices: Seq<Device>,
    a: Seq<(Seq<u8>, Seq<u8>)>,
    b: Seq<(Seq<u8>, Seq<u8>)>,
)
    ensures
        gap_of(blobs, subs, devices, a + b) == gap_of(blobs, subs, devices, a) + gap_of(blobs, subs, devices, b),
    decreases b.len(),
{
    if b.len() == 0 {
        assert(a + b =~= a);
        assert(gap_of(blobs, subs, devices, a) + gap_of(blobs, subs, devices, b) =~= gap_of(blobs, subs, devices, a));
    } else {
        law_gaps_add_up(blobs, subs, devices, a, b.drop_last());
        assert((a + b).drop_last() =~= a + b.drop_last());
        assert((a + b).last() == b.last());
        assert(gap_of(blobs, subs, devices, a + b) =~= gap_of(blobs, subs, devices, a) + gap_of(
            blobs,
            subs,
            devices,
            b,
        ));
    }
}

/// A blob of a peer is asked for exactly where it is not held here, and someone
/// here is subscribed to its channel or a device is registered for the identity
/// that the channel stands for.
pub proof fn law_what_a_peer_is_asked_for(
    blobs: Seq<(Seq<u8>, BlobMeta)>,
    subs: Seq<Subscription>,
    devices: Seq<Device>,
    channel: Seq<u8>,
    id: Seq<u8>,
)
    ensures
        gap_of(blobs, subs, devices, seq![(channel, id)]) == (if (forall|i: int|
            0 <= i < blobs.len() ==> (#[trigger] blobs[i]).0 != id) && ((exists|i: int|
            0 <= i < subs.len() && (#[trigger] subs[i]).channel == channel) || (exists|i: int|
            0 <= i < devices.len() && (#[trigger] devices[i]).distro == channel)) {
            seq![id]
        } else {
            Seq::empty()
        }),
{
    let pairs = seq![(channel, id)];
    assert(pairs.drop_last() =~= Seq::empty());
    assert(gap_of(blobs, subs, devices, pairs.drop_last()) =~= Seq::empty());
    let names = channels_of(subs);
    assert(names.contains(channel) <==> exists|i: int|
        0 <= i < subs.len() && (#[trigger] subs[i]).channel == channel) by {
        if names.contains(channel) {
            let k = names.index_of(channel);
            assert(subs[k].channel == channel);
        }
        if exists|i: int| 0 <= i < subs.len() && (#[trigger] subs[i]).channel == channel {
            let i = choose|i: int| 0 <= i < subs.len() && (#[trigger] subs[i]).channel == channel;
            assert(names[i] == channel);
        }
    }
    assert(Seq::<Seq<u8>>::empty().push(id) =~= seq![id]);
}

proof fn lemma_device_misses_len(
    node: FedNode,
    entries: Seq<Deferred>,
    missed: Seq<Unconfirmed>,
    routing: Seq<u8>,
    blob: Seq<u8>,
    now: u64,
)
    requires
        entries.len() + missed.len() <= node.deferred_queue.global_limit,
    ensures
        with_device_misses(node, entries, missed, routing, blob, now).len() <= entries.len() + missed.len(),
    decreases missed.len(),
{
    if missed.len() > 0 {
        let few = missed.drop_last();
        let key = missed.last().queue_key@;
        lemma_device_misses_len(node, entries, few, routing, blob, now);
        crate::deferred_queue::lemma_one_more_waits(
            with_device_misses(node, entries, few, routing, blob, now),
            Deferred { subscriber: key, channel: routing, blob, enqueued_at: now },
            node.config.spec_policy_for(key).deferred_queue_limit as nat,
            node.deferred_queue.global_limit as nat,
            key,
        );
    }
}

/// Where the queue has room for all of them, a blob waits for every device that
/// missed it.
pub proof fn law_blob_waits_for_every_missed_device(
    node: FedNode,
    entries: Seq<Deferred>,
    missed: Seq<Unconfirmed>,
    routing: Seq<u8>,
    blob: Seq<u8>,
    now: u64,
    i: int,
)
    requires
        entries.len() + missed.len() <= node.deferred_queue.global_limit,
        0 <= i < missed.len(),
    ensures
        crate::deferred_queue::waiting_for(
            with_device_misses(node, entries, missed, routing, blob, now),
            missed[i].queue_key@,
        ).contains(Deferred { subscriber: missed[i].queue_key@, channel: routing, blob, enqueued_at: now }),
    decreases missed.len(),
{
    let few = missed.drop_last();
    let key = missed.last().queue_key@;
    let before = with_device_misses(node, entries, few, routing, blob, now);
    let e = Deferred { subscriber: key, channel: routing, blob, enqueued_at: now };
    let limit = node.config.spec_policy_for(key).deferred_queue_limit as nat;
    let most = node.deferred_queue.global_limit as nat;
    lemma_device_misses_len(node, entries, few, routing, blob, now);
    crate::deferred_queue::lemma_one_more_waits(before, e, limit, most, missed[i].queue_key@);
    if missed[i].queue_key@ == key {
        let mine = crate::deferred_queue::waiting_for(enqueued(before, e, limit, most), key);
        assert(mine[mine.len() - 1] == e);
    } else {
        assert(few[i] == missed[i]);
        law_blob_waits_for_every_missed_device(node, entries, few, routing, blob, now, i);
    }
}

/// What waits for somebody who did not miss the blob stays as it is.
pub proof fn law_misses_leave_others_alone(
    node: FedNode,
    entries: Seq<Deferred>,
    missed: Seq<Unconfirmed>,
    routing: Seq<u8>,
    blob: Seq<u8>,
    now: u64,
    other: Seq<u8>,
)
    requires
        forall|i: int| 0 <= i < missed.len() ==> (#[trigger] missed[i]).queue_key@ != other,
    ensures
        crate::deferred_queue::waiting_for(with_device_misses(node, entries, missed, routing, blob, now), other)
            == crate::deferred_queue::waiting_for(entries, other),
    decreases missed.len(),
{
    if missed.len() > 0 {
        let few = missed.drop_last();
        let key = missed.last().queue_key@;
        assert forall|i: int| 0 <= i < few.len() implies (#[trigger] few[i]).queue_key@ != other by {
            assert(few[i] == missed[i]);
        }
        law_misses_leave_others_alone(node, entries, few, routing, blob, now, other);
        assert(missed[missed.len() - 1].queue_key@ != other);
        crate::deferred_queue::law_what_enqueueing_does(
            with_device_misses(node, entries, few, routing, blob, now),
            Deferred { subscriber: key, channel: routing, blob, enqueued_at: now },
            node.config.spec_policy_for(key).deferred_queue_limit as nat,
            node.deferred_queue.global_limit as nat,
            other,
        );
    }
}

/// The relays of devices that missed a message: every registration for no
/// channel under the address of one of them, device by device, and no other.
pub proof fn law_every_missed_device_is_woken(regs: Seq<Registration>, missed: Seq<Unconfirmed>, r: Registration)
    ensures
        device_relays(regs, missed).contains(r) <==> regs.contains(r) && r.channel is None && exists|i: int|
            0 <= i < missed.len() && (#[trigger] missed[i]).wake_key@ == r.subscriber,
    decreases missed.len(),
{
    if missed.len() > 0 {
        let few = missed.drop_last();
        let key = missed.last().wake_key@;
        let a = device_relays(regs, few);
        let b = regs.filter(of_channel(key, None));
        law_every_missed_device_is_woken(regs, few, r);
        crate::octets::lemma_filter_holds(regs, of_channel(key, None));
        let all = a + b;
        if all.contains(r) {
            let k = all.index_of(r);
            if k < a.len() {
                assert(a[k] == r);
                assert(a.contains(r));
                let i = choose|i: int| 0 <= i < few.len() && (#[trigger] few[i]).wake_key@ == r.subscriber;
                assert(missed[i] == few[i]);
            } else {
                assert(b[k - a.len()] == r);
                assert(b.contains(r));
                assert(missed[missed.len() - 1].wake_key@ == r.subscriber);
            }
        }
        if regs.contains(r) && r.channel is None && exists|i: int|
            0 <= i < missed.len() && (#[trigger] missed[i]).wake_key@ == r.subscriber {
            let i = choose|i: int| 0 <= i < missed.len() && (#[trigger] missed[i]).wake_key@ == r.subscriber;
            if i < few.len() {
                assert(few[i] == missed[i]);
                assert(a.contains(r));
                let k = a.index_of(r);
                assert(all[k] == r);
            } else {
                assert(b.contains(r));
                let k = b.index_of(r);
                assert(all[a.len() + k] == r);
            }
        }
    }
}

/// The relays of two lists of devices one after the other are those of each of
/// them, so that a relay is woken once for each device.
pub proof fn law_missed_devices_add_up(regs: Seq<Registration>, a: Seq<Unconfirmed>, b: Seq<Unconfirmed>)
    ensures
        device_relays(regs, a + b) == device_relays(regs, a) + device_relays(regs, b),
    decreases b.len(),
{
    if b.len() == 0 {
        assert(a + b =~= a);
        assert(device_relays(regs, a) + device_relays(regs, b) =~= device_relays(regs, a));
    } else {
        law_missed_devices_add_up(regs, a, b.drop_last());
        assert((a + b).drop_last() =~= a + b.drop_last());
        assert((a + b).last() == b.last());
        assert(device_relays(regs, a + b) =~= device_relays(regs, a) + device_relays(regs, b));
    }
}

/// What becomes of a peer that was tried: where its identity is not known a path
/// to it is asked for, where it cannot be reached yet it is tried again after
/// five seconds, and only where a link is being opened has the exchange begun.
pub proof fn law_peer_that_was_tried(node: &mut FedNode, peer_hash: &[u8], reach: Reach, now: u64, r: SyncLinkPlan)
    requires
        call_ensures(FedNode::sync_link_tried, (node, peer_hash, reach, now), r),
    ensures
        r.started <==> reach is Opening,
        r.request_path <==> reach is UnknownIdentity,
        reach is NotReady || reach is UnknownIdentity ==> r.retry_at is Some,
        !(reach is NotReady || reach is UnknownIdentity) ==> r.retry_at is None,
        r.retry_at matches Some(t) && now + 5_000_000_000 <= u64::MAX ==> r.retry_at->0 == now + 5_000_000_000,
{
}

/// An offer that is not answered has failed. Of one that is answered exactly the
/// blobs are fetched that are lacked on a channel that somebody is subscribed to
/// or that a device is registered for, and where there is none it is over.
pub proof fn law_what_follows_an_answer(node: &FedNode, response: Option<&[u8]>, r: SessionStep)
    requires
        call_ensures(FedNode::on_offer_answer, (node, response), r),
    ensures
        response is None ==> r == SessionStep::Finish(false),
        response is Some && pair_list_read(response->0@) is None ==> r == SessionStep::Finish(true),
        response is Some && pair_list_read(response->0@) is Some ==> {
            let want = gap_of(
                node.blob_store@.blobs,
                node.subscription_table@,
                node.distro_table@,
                pair_list_read(response->0@)->0,
            );
            &&& want.len() == 0 ==> r == SessionStep::Finish(true)
            &&& want.len() > 0 ==> r is Fetch && r->Fetch_0@ == hash_list_write(want)
        },
{
}

/// A blob that missed devices waits for each of them and wakes the relays of
/// each, and no other part of the node is touched.
pub proof fn law_missed_devices_are_served(
    node: &mut FedNode,
    missed: &Vec<Unconfirmed>,
    routing: &[u8],
    blob: &[u8],
    now: u64,
    r: Vec<NotifyRegistration>,
    i: int,
    reg: Registration,
)
    requires
        call_ensures(FedNode::defer_missed_devices, (node, missed, routing, blob, now), r),
        0 <= i < missed@.len(),
        old(node).notify_registry@.contains(reg),
        reg.subscriber == missed@[i].wake_key@,
        reg.channel is None,
    ensures
        registration_views(r@).contains(reg),
        final(node).subscription_table == old(node).subscription_table,
        final(node).blob_store == old(node).blob_store,
{
    law_every_missed_device_is_woken(old(node).notify_registry@, missed@, reg);
}

/// A sync with a peer is wanted exactly where no link to it is open.
pub proof fn law_when_a_link_is_wanted(node: &FedNode, peer_hash: &[u8], r: bool)
    requires
        call_ensures(FedNode::wants_sync_link, (node, peer_hash), r),
    ensures
        r <==> forall|i: int| 0 <= i < node.sync_links@.len() ==> (#[trigger] node.sync_links@[i])@ != peer_hash@,
{
    let list = views(node.sync_links@);
    if list.contains(peer_hash@) {
        assert(node.sync_links@[list.index_of(peer_hash@)]@ == peer_hash@);
    }
    assert forall|i: int| 0 <= i < node.sync_links@.len() implies list.contains(
        (#[trigger] node.sync_links@[i])@,
    ) by {
        assert(list[i] == node.sync_links@[i]@);
    }
}

} // verus!
