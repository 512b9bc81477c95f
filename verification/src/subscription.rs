//! The subscriptions of a node: who wants what is sent to which channel.
//!
//! A subscription is the node's own, or held for another node that owns the
//! subscriber. The latter is refreshed by its owner and lapses otherwise.
use vstd::prelude::*;
use crate::octets::{
    copied, copied_opt, distinct_of, is_some_of, lemma_filter_ends, lemma_filter_step, opt_view, same_bytes, views,
};
use crate::lxmf_propagation::id_queue::IdQueue;

verus! {

/// A subscription.
pub struct SubscriptionEntry {
    /// The subscriber.
    pub subscriber_hash: Vec<u8>,
    /// The channel.
    pub channel_hash: Vec<u8>,
    /// When it was made.
    pub added: u64,
    /// The node that owns the subscriber, where this node holds the
    /// subscription for another.
    pub owner_node_hash: Option<Vec<u8>>,
    /// When its owner last refreshed it.
    pub last_refreshed: u64,
}

/// What a [`SubscriptionEntry`] holds.
pub struct Subscription {
    pub subscriber: Seq<u8>,
    pub channel: Seq<u8>,
    pub added: u64,
    pub owner: Option<Seq<u8>>,
    pub last_refreshed: u64,
}

impl View for SubscriptionEntry {
    type V = Subscription;

    open spec fn view(&self) -> Subscription {
        Subscription {
            subscriber: self.subscriber_hash@,
            channel: self.channel_hash@,
            added: self.added,
            owner: opt_view(self.owner_node_hash),
            last_refreshed: self.last_refreshed,
        }
    }
}

/// The contents of a list of subscriptions.
pub open spec fn subscription_views(list: Seq<SubscriptionEntry>) -> Seq<Subscription> {
    list.map_values(|e: SubscriptionEntry| e@)
}

/// The test that a subscription is not of this subscriber and channel.
pub open spec fn is_other_pair(subscriber: Seq<u8>, channel: Seq<u8>) -> spec_fn(Subscription) -> bool {
    |s: Subscription| !(s.subscriber == subscriber && s.channel == channel)
}

/// The test that a subscription is to a channel.
pub open spec fn to_channel(channel: Seq<u8>) -> spec_fn(Subscription) -> bool {
    |s: Subscription| s.channel == channel
}

/// The test that a subscription is of a subscriber.
pub open spec fn by_subscriber(subscriber: Seq<u8>) -> spec_fn(Subscription) -> bool {
    |s: Subscription| s.subscriber == subscriber
}

/// The test that a subscription is held for another node.
pub open spec fn is_backup() -> spec_fn(Subscription) -> bool {
    |s: Subscription| s.owner is Some
}

/// The test that a subscription is the node's own, or was refreshed within
/// `max_age`.
pub open spec fn is_current(now: u64, max_age: u64) -> spec_fn(Subscription) -> bool {
    |s: Subscription| s.owner is None || s.last_refreshed + max_age >= now
}

/// Whether there is a subscription of this subscriber and channel.
pub open spec fn subscribed(subs: Seq<Subscription>, subscriber: Seq<u8>, channel: Seq<u8>) -> bool {
    exists|i: int|
        0 <= i < subs.len() && (#[trigger] subs[i]).subscriber == subscriber && subs[i].channel == channel
}

/// The test that a subscription is held for `owner`, of this subscriber and
/// channel.
pub open spec fn is_backup_of(subscriber: Seq<u8>, channel: Seq<u8>, owner: Seq<u8>) -> spec_fn(Subscription) -> bool {
    |s: Subscription| s.subscriber == subscriber && s.channel == channel && s.owner == Some(owner)
}

/// The subscriptions after one was made, unless it was there.
pub open spec fn with_subscription(subs: Seq<Subscription>, subscriber: Seq<u8>, channel: Seq<u8>, now: u64) -> Seq<
    Subscription,
> {
    if subscribed(subs, subscriber, channel) {
        subs
    } else {
        subs.push(Subscription { subscriber, channel, added: now, owner: None, last_refreshed: now })
    }
}

/// The subscriptions after one that is held for `owner` was made: the first
/// that is the same is refreshed, and otherwise a new one stands at the end.
pub open spec fn with_backup(
    subs: Seq<Subscription>,
    subscriber: Seq<u8>,
    channel: Seq<u8>,
    owner: Seq<u8>,
    now: u64,
) -> Seq<Subscription>
    decreases subs.len(),
{
    if subs.len() == 0 {
        seq![Subscription { subscriber, channel, added: now, owner: Some(owner), last_refreshed: now }]
    } else if is_backup_of(subscriber, channel, owner)(subs[0]) {
        seq![Subscription { last_refreshed: now, ..subs[0] }] + subs.skip(1)
    } else {
        seq![subs[0]] + with_backup(subs.skip(1), subscriber, channel, owner, now)
    }
}

proof fn lemma_backup_appended(subs: Seq<Subscription>, subscriber: Seq<u8>, channel: Seq<u8>, owner: Seq<u8>, now: u64)
    requires
        forall|i: int| 0 <= i < subs.len() ==> !is_backup_of(subscriber, channel, owner)(#[trigger] subs[i]),
    ensures
        with_backup(subs, subscriber, channel, owner, now) == subs.push(
            Subscription { subscriber, channel, added: now, owner: Some(owner), last_refreshed: now },
        ),
    decreases subs.len(),
{
    let new = Subscription { subscriber, channel, added: now, owner: Some(owner), last_refreshed: now };
    if subs.len() > 0 {
        let rest = subs.skip(1);
        assert forall|i: int| 0 <= i < rest.len() implies !is_backup_of(subscriber, channel, owner)(#[trigger] rest[i]) by {
            assert(rest[i] == subs[i + 1]);
        }
        lemma_backup_appended(rest, subscriber, channel, owner, now);
        assert(!is_backup_of(subscriber, channel, owner)(subs[0]));
        assert(seq![subs[0]] + rest.push(new) =~= subs.push(new));
    } else {
        assert(seq![new] =~= subs.push(new));
    }
}

proof fn lemma_backup_refreshed(
    subs: Seq<Subscription>,
    subscriber: Seq<u8>,
    channel: Seq<u8>,
    owner: Seq<u8>,
    now: u64,
    k: int,
)
    requires
        0 <= k < subs.len(),
        is_backup_of(subscriber, channel, owner)(subs[k]),
        forall|i: int| 0 <= i < k ==> !is_backup_of(subscriber, channel, owner)(#[trigger] subs[i]),
    ensures
        with_backup(subs, subscriber, channel, owner, now) == subs.update(
            k,
            Subscription { last_refreshed: now, ..subs[k] },
        ),
    decreases k,
{
    let fresh = Subscription { last_refreshed: now, ..subs[k] };
    if k == 0 {
        assert(seq![fresh] + subs.skip(1) =~= subs.update(0, fresh));
    } else {
        let rest = subs.skip(1);
        assert forall|i: int| 0 <= i < k - 1 implies !is_backup_of(subscriber, channel, owner)(#[trigger] rest[i]) by {
            assert(rest[i] == subs[i + 1]);
        }
        lemma_backup_refreshed(rest, subscriber, channel, owner, now, k - 1);
        assert(!is_backup_of(subscriber, channel, owner)(subs[0]));
        assert(seq![subs[0]] + rest.update(k - 1, fresh) =~= subs.update(k, fresh));
    }
}

/// The subscribers of a list of subscriptions.
pub open spec fn subscribers_of(subs: Seq<Subscription>) -> Seq<Seq<u8>> {
    subs.map_values(|s: Subscription| s.subscriber)
}

/// The channels of a list of subscriptions.
pub open spec fn channels_of(subs: Seq<Subscription>) -> Seq<Seq<u8>> {
    subs.map_values(|s: Subscription| s.channel)
}

/// The subscribers of a list of subscriptions, with their owners.
pub open spec fn owned_subscribers_of(subs: Seq<Subscription>) -> Seq<(Seq<u8>, Option<Seq<u8>>)> {
    subs.map_values(|s: Subscription| (s.subscriber, s.owner))
}

/// The contents of a list of subscribers with their owners.
pub open spec fn owned_views(list: Seq<(Vec<u8>, Option<Vec<u8>>)>) -> Seq<(Seq<u8>, Option<Seq<u8>>)> {
    list.map_values(|p: (Vec<u8>, Option<Vec<u8>>)| (p.0@, opt_view(p.1)))
}

/// The subscribers, channels and owners of subscriptions that are held for
/// others.
pub open spec fn backup_triples_of(subs: Seq<Subscription>) -> Seq<(Seq<u8>, Seq<u8>, Seq<u8>)> {
    subs.map_values(|s: Subscription| (s.subscriber, s.channel, s.owner->0))
}

/// The contents of a list of subscribers, channels and owners.
pub open spec fn triple_views(list: Seq<(Vec<u8>, Vec<u8>, Vec<u8>)>) -> Seq<(Seq<u8>, Seq<u8>, Seq<u8>)> {
    list.map_values(|t: (Vec<u8>, Vec<u8>, Vec<u8>)| (t.0@, t.1@, t.2@))
}

/// The subscriptions of a node.
pub struct SubscriptionTable {
    pub entries: Vec<SubscriptionEntry>,
}

impl SubscriptionTable {
    /// The subscriptions, in the order in which they were made.
    pub open spec fn view(&self) -> Seq<Subscription> {
        subscription_views(self.entries@)
    }

    /// The table of subscriptions that were saved.
    pub fn load(entries: Vec<SubscriptionEntry>) -> (r: Self)
        ensures
            r@ == subscription_views(entries@),
    {
        SubscriptionTable { entries }
    }

    /// Whether there is a subscription of this subscriber and channel.
    pub fn is_subscribed(&self, subscriber_hash: &[u8], channel_hash: &[u8]) -> (r: bool)
        ensures
            r == subscribed(self@, subscriber_hash@, channel_hash@),
    {
        let mut i: usize = 0;
        while i < self.entries.len()
            invariant
                0 <= i <= self.entries@.len(),
                forall|j: int|
                    0 <= j < i ==> !((#[trigger] self@[j]).subscriber == subscriber_hash@ && self@[j].channel
                        == channel_hash@),
            decreases self.entries@.len() - i,
        {
            let e: &SubscriptionEntry = &self.entries[i];
            assert(self@[i as int] == e@);
            if same_bytes(e.subscriber_hash.as_slice(), subscriber_hash) && same_bytes(
                e.channel_hash.as_slice(),
                channel_hash,
            ) {
                return true;
            }
            i += 1;
        }
        false
    }

    /// Makes a subscription unless it is there. Says whether it is new.
    pub fn subscribe(&mut self, subscriber_hash: Vec<u8>, channel_hash: Vec<u8>, now: u64) -> (r: bool)
        ensures
            r == !subscribed(old(self)@, subscriber_hash@, channel_hash@),
            final(self)@ == with_subscription(old(self)@, subscriber_hash@, channel_hash@, now),
    {
        if self.is_subscribed(subscriber_hash.as_slice(), channel_hash.as_slice()) {
            return false;
        }
        let ghost before = self@;
        let entry: SubscriptionEntry = SubscriptionEntry {
            subscriber_hash,
            channel_hash,
            added: now,
            owner_node_hash: None,
            last_refreshed: now,
        };
        self.entries.push(entry);
        assert(self@ =~= before.push(entry@));
        true
    }

    /// Makes or refreshes a subscription that is held for another node.
    pub fn subscribe_backup(&mut self, subscriber_hash: Vec<u8>, channel_hash: Vec<u8>, owner_hash: Vec<u8>, now: u64)
        ensures
            final(self)@ == with_backup(old(self)@, subscriber_hash@, channel_hash@, owner_hash@, now),
    {
        let ghost before = self@;
        let ghost test = is_backup_of(subscriber_hash@, channel_hash@, owner_hash@);
        let mut i: usize = 0;
        while i < self.entries.len()
            invariant
                0 <= i <= self.entries@.len(),
                before == self@,
                before == old(self)@,
                test == is_backup_of(subscriber_hash@, channel_hash@, owner_hash@),
                forall|j: int| 0 <= j < i ==> !test(#[trigger] before[j]),
            decreases self.entries@.len() - i,
        {
            assert(before[i as int] == self.entries@[i as int]@);
            if same_bytes(self.entries[i].subscriber_hash.as_slice(), subscriber_hash.as_slice()) && same_bytes(
                self.entries[i].channel_hash.as_slice(),
                channel_hash.as_slice(),
            ) && is_some_of(&self.entries[i].owner_node_hash, owner_hash.as_slice()) {
                self.entries[i].last_refreshed = now;
                proof {
                    lemma_backup_refreshed(before, subscriber_hash@, channel_hash@, owner_hash@, now, i as int);
                    assert(self@ =~= before.update(i as int, Subscription { last_refreshed: now, ..before[i as int] }));
                }
                return;
            }
            i += 1;
        }
        proof {
            lemma_backup_appended(before, subscriber_hash@, channel_hash@, owner_hash@, now);
        }
        let entry: SubscriptionEntry = SubscriptionEntry {
            subscriber_hash,
            channel_hash,
            added: now,
            owner_node_hash: Some(owner_hash),
            last_refreshed: now,
        };
        self.entries.push(entry);
        assert(self@ =~= before.push(entry@));
    }

    /// Ends the subscriptions of this subscriber and channel, the node's own
    /// and held ones. Says whether there were any.
    pub fn unsubscribe(&mut self, subscriber_hash: &[u8], channel_hash: &[u8]) -> (r: bool)
        ensures
            final(self)@ == old(self)@.filter(is_other_pair(subscriber_hash@, channel_hash@)),
            r == (final(self)@.len() != old(self)@.len()),
    {
        let ghost all = self@;
        let ghost test = is_other_pair(subscriber_hash@, channel_hash@);
        let before: usize = self.entries.len();
        let mut given: Vec<SubscriptionEntry> = Vec::new();
        std::mem::swap(&mut self.entries, &mut given);
        let ghost list = given@;
        let mut kept: Vec<SubscriptionEntry> = Vec::new();
        proof {
            lemma_filter_ends(all, test);
            assert(subscription_views(kept@) =~= Seq::empty());
        }
        for e in it: given
            invariant
                it.seq() == list,
                all == subscription_views(list),
                test == is_other_pair(subscriber_hash@, channel_hash@),
                subscription_views(kept@) == all.take(it.index()).filter(test),
        {
            let ghost i = it.index();
            proof {
                lemma_filter_step(all, test, i);
                assert(all[i] == e@);
            }
            if !(same_bytes(e.subscriber_hash.as_slice(), subscriber_hash) && same_bytes(
                e.channel_hash.as_slice(),
                channel_hash,
            )) {
                let ghost was = subscription_views(kept@);
                let ghost ev = e@;
                kept.push(e);
                assert(subscription_views(kept@) =~= was.push(ev));
            }
        }
        proof {
            lemma_filter_ends(all, test);
        }
        self.entries = kept;
        self.entries.len() != before
    }

    /// The subscribers of a channel, in order.
    pub fn get_subscribers(&self, channel_hash: &[u8]) -> (r: Vec<Vec<u8>>)
        ensures
            views(r@) == subscribers_of(self@.filter(to_channel(channel_hash@))),
    {
        let ghost all = self@;
        let ghost test = to_channel(channel_hash@);
        let mut out: Vec<Vec<u8>> = Vec::new();
        let mut i: usize = 0;
        proof {
            lemma_filter_ends(all, test);
            assert(views(out@) =~= subscribers_of(all.take(0).filter(test)));
        }
        while i < self.entries.len()
            invariant
                0 <= i <= self.entries@.len(),
                all == self@,
                test == to_channel(channel_hash@),
                views(out@) == subscribers_of(all.take(i as int).filter(test)),
            decreases self.entries@.len() - i,
        {
            let e: &SubscriptionEntry = &self.entries[i];
            let ghost found = all.take(i as int).filter(test);
            proof {
                lemma_filter_step(all, test, i as int);
                assert(all[i as int] == e@);
            }
            if same_bytes(e.channel_hash.as_slice(), channel_hash) {
                let ghost was = views(out@);
                let item: Vec<u8> = copied(e.subscriber_hash.as_slice());
                out.push(item);
                assert(views(out@) =~= was.push(item@));
                assert(subscribers_of(found.push(e@)) =~= subscribers_of(found).push(e@.subscriber));
            }
            i += 1;
        }
        proof {
            lemma_filter_ends(all, test);
        }
        out
    }

    /// The channels that are subscribed to, each once.
    pub fn subscribed_channel_hashes(&self) -> (r: Vec<Vec<u8>>)
        ensures
            views(r@) == distinct_of(channels_of(self@)),
    {
        let ghost all = channels_of(self@);
        let mut seen: IdQueue = IdQueue::new();
        let mut i: usize = 0;
        assert(distinct_of(all.take(0)) =~= Seq::empty());
        while i < self.entries.len()
            invariant
                0 <= i <= self.entries@.len(),
                all == channels_of(self@),
                seen.wf(),
                seen@ == distinct_of(all.take(i as int)),
            decreases self.entries@.len() - i,
        {
            proof {
                assert(all.take(i + 1).drop_last() =~= all.take(i as int));
                assert(all.take(i + 1).last() == self.entries@[i as int].channel_hash@);
            }
            seen.push_unique(copied(self.entries[i].channel_hash.as_slice()));
            i += 1;
        }
        assert(all.take(all.len() as int) =~= all);
        seen.to_vec()
    }

    /// The channels of a subscriber, in order.
    pub fn get_channels_for(&self, subscriber_hash: &[u8]) -> (r: Vec<Vec<u8>>)
        ensures
            views(r@) == channels_of(self@.filter(by_subscriber(subscriber_hash@))),
    {
        let ghost all = self@;
        let ghost test = by_subscriber(subscriber_hash@);
        let mut out: Vec<Vec<u8>> = Vec::new();
        let mut i: usize = 0;
        proof {
            lemma_filter_ends(all, test);
            assert(views(out@) =~= channels_of(all.take(0).filter(test)));
        }
        while i < self.entries.len()
            invariant
                0 <= i <= self.entries@.len(),
                all == self@,
                test == by_subscriber(subscriber_hash@),
                views(out@) == channels_of(all.take(i as int).filter(test)),
            decreases self.entries@.len() - i,
        {
            let e: &SubscriptionEntry = &self.entries[i];
            let ghost found = all.take(i as int).filter(test);
            proof {
                lemma_filter_step(all, test, i as int);
                assert(all[i as int] == e@);
            }
            if same_bytes(e.subscriber_hash.as_slice(), subscriber_hash) {
                let ghost was = views(out@);
                let item: Vec<u8> = copied(e.channel_hash.as_slice());
                out.push(item);
                assert(views(out@) =~= was.push(item@));
                assert(channels_of(found.push(e@)) =~= channels_of(found).push(e@.channel));
            }
            i += 1;
        }
        proof {
            lemma_filter_ends(all, test);
        }
        out
    }

    /// The subscribers of a channel with their owners, in order.
    pub fn get_subscribers_with_owner(&self, channel_hash: &[u8]) -> (r: Vec<(Vec<u8>, Option<Vec<u8>>)>)
        ensures
            owned_views(r@) == owned_subscribers_of(self@.filter(to_channel(channel_hash@))),
    {
        let ghost all = self@;
        let ghost test = to_channel(channel_hash@);
        let mut out: Vec<(Vec<u8>, Option<Vec<u8>>)> = Vec::new();
        let mut i: usize = 0;
        proof {
            lemma_filter_ends(all, test);
            assert(owned_views(out@) =~= owned_subscribers_of(all.take(0).filter(test)));
        }
        while i < self.entries.len()
            invariant
                0 <= i <= self.entries@.len(),
                all == self@,
                test == to_channel(channel_hash@),
                owned_views(out@) == owned_subscribers_of(all.take(i as int).filter(test)),
            decreases self.entries@.len() - i,
        {
            let e: &SubscriptionEntry = &self.entries[i];
            let ghost found = all.take(i as int).filter(test);
            proof {
                lemma_filter_step(all, test, i as int);
                assert(all[i as int] == e@);
            }
            if same_bytes(e.channel_hash.as_slice(), channel_hash) {
                let ghost was = owned_views(out@);
                let item: (Vec<u8>, Option<Vec<u8>>) = (
                    copied(e.subscriber_hash.as_slice()),
                    copied_opt(&e.owner_node_hash),
                );
                out.push(item);
                assert(owned_views(out@) =~= was.push((item.0@, opt_view(item.1))));
                assert(owned_subscribers_of(found.push(e@)) =~= owned_subscribers_of(found).push(
                    (e@.subscriber, e@.owner),
                ));
            }
            i += 1;
        }
        proof {
            lemma_filter_ends(all, test);
        }
        out
    }

    /// The subscriptions that are held for other nodes, in order.
    pub fn backup_entries_for_tick(&self) -> (r: Vec<(Vec<u8>, Vec<u8>, Vec<u8>)>)
        ensures
            triple_views(r@) == backup_triples_of(self@.filter(is_backup())),
    {
        let ghost all = self@;
        let ghost test = is_backup();
        let mut out: Vec<(Vec<u8>, Vec<u8>, Vec<u8>)> = Vec::new();
        let mut i: usize = 0;
        proof {
            lemma_filter_ends(all, test);
            assert(triple_views(out@) =~= backup_triples_of(all.take(0).filter(test)));
        }
        while i < self.entries.len()
            invariant
                0 <= i <= self.entries@.len(),
                all == self@,
                test == is_backup(),
                triple_views(out@) == backup_triples_of(all.take(i as int).filter(test)),
            decreases self.entries@.len() - i,
        {
            let e: &SubscriptionEntry = &self.entries[i];
            let ghost found = all.take(i as int).filter(test);
            proof {
                lemma_filter_step(all, test, i as int);
                assert(all[i as int] == e@);
            }
            if let Some(owner) = &e.owner_node_hash {
                let ghost was = triple_views(out@);
                let item: (Vec<u8>, Vec<u8>, Vec<u8>) = (
                    copied(e.subscriber_hash.as_slice()),
                    copied(e.channel_hash.as_slice()),
                    copied(owner.as_slice()),
                );
                out.push(item);
                assert(triple_views(out@) =~= was.push((item.0@, item.1@, item.2@)));
                assert(backup_triples_of(found.push(e@)) =~= backup_triples_of(found).push(
                    (e@.subscriber, e@.channel, e@.owner->0),
                ));
            }
            i += 1;
        }
        proof {
            lemma_filter_ends(all, test);
        }
        out
    }

    /// Ends the held subscriptions that were not refreshed within `max_age`.
    /// Returns how many.
    pub fn prune_stale_backups(&mut self, max_age: u64, now: u64) -> (r: usize)
        ensures
            final(self)@ == old(self)@.filter(is_current(now, max_age)),
            r == old(self)@.len() - final(self)@.len(),
    {
        let ghost all = self@;
        let ghost test = is_current(now, max_age);
        let before: usize = self.entries.len();
        let mut given: Vec<SubscriptionEntry> = Vec::new();
        std::mem::swap(&mut self.entries, &mut given);
        let ghost list = given@;
        let mut kept: Vec<SubscriptionEntry> = Vec::new();
        proof {
            lemma_filter_ends(all, test);
            assert(subscription_views(kept@) =~= Seq::empty());
            all.lemma_filter_len(test);
        }
        for e in it: given
            invariant
                it.seq() == list,
                all == subscription_views(list),
                test == is_current(now, max_age),
                subscription_views(kept@) == all.take(it.index()).filter(test),
        {
            let ghost i = it.index();
            proof {
                lemma_filter_step(all, test, i);
                assert(all[i] == e@);
            }
            let refreshed: bool = e.last_refreshed >= now || now - e.last_refreshed <= max_age;
            if e.owner_node_hash.is_none() || refreshed {
                let ghost was = subscription_views(kept@);
                let ghost ev = e@;
                kept.push(e);
                assert(subscription_views(kept@) =~= was.push(ev));
            }
        }
        proof {
            lemma_filter_ends(all, test);
            assert(subscription_views(kept@).len() == kept@.len());
        }
        self.entries = kept;
        before - self.entries.len()
    }

    /// The number of subscriptions.
    pub fn len(&self) -> (r: usize)
        ensures
            r == self@.len(),
    {
        self.entries.len()
    }

    /// Whether there are none.
    pub fn is_empty(&self) -> (r: bool)
        ensures
            r == (self@.len() == 0),
    {
        self.entries.len() == 0
    }
}

/// A subscription that was made is there, and making it again changes nothing.
pub proof fn law_subscribing_is_idempotent(
    subs: Seq<Subscription>,
    subscriber: Seq<u8>,
    channel: Seq<u8>,
    now: u64,
    later: u64,
)
    ensures
        ({
            let once = with_subscription(subs, subscriber, channel, now);
            &&& subscribed(once, subscriber, channel)
            &&& with_subscription(once, subscriber, channel, later) == once
        }),
{
    let once = with_subscription(subs, subscriber, channel, now);
    if !subscribed(subs, subscriber, channel) {
        assert(once[subs.len() as int].subscriber == subscriber);
    }
}

/// Nothing is left of a subscription that was ended, and the others stay.
pub proof fn law_unsubscribing_ends_it(
    subs: Seq<Subscription>,
    subscriber: Seq<u8>,
    channel: Seq<u8>,
    other: Subscription,
)
    ensures
        ({
            let after = subs.filter(is_other_pair(subscriber, channel));
            &&& !subscribed(after, subscriber, channel)
            &&& other.subscriber != subscriber || other.channel != channel ==> (after.contains(other) <==> subs.contains(
                other,
            ))
        }),
{
    let keep = is_other_pair(subscriber, channel);
    let after = subs.filter(keep);
    crate::octets::lemma_filter_holds(subs, keep);
    if subscribed(after, subscriber, channel) {
        let i = choose|i: int|
            0 <= i < after.len() && (#[trigger] after[i]).subscriber == subscriber && after[i].channel == channel;
        assert(after.contains(after[i]));
        assert(keep(after[i]));
    }
}

/// The node's own subscriptions never lapse, and a held one that was just
/// refreshed does not.
pub proof fn law_own_subscriptions_do_not_lapse(subs: Seq<Subscription>, s: Subscription, now: u64, max_age: u64)
    requires
        subs.contains(s),
        s.owner is None || s.last_refreshed + max_age >= now,
    ensures
        subs.filter(is_current(now, max_age)).contains(s),
{
    crate::octets::lemma_filter_holds(subs, is_current(now, max_age));
}

/// Who subscribes is subscribed, and nobody else comes or goes: every entry stays
/// in its place, and only where the pair was not there does one entry follow,
/// which is the subscriber's own and was made now.
pub proof fn law_subscribing_adds_the_pair(
    subs: Seq<Subscription>,
    subscriber: Seq<u8>,
    channel: Seq<u8>,
    now: u64,
)
    ensures
        ({
            let after = with_subscription(subs, subscriber, channel, now);
            &&& after.take(subs.len() as int) == subs
            &&& subs.len() <= after.len() <= subs.len() + 1
            &&& after.len() == subs.len() <==> exists|i: int|
                0 <= i < subs.len() && (#[trigger] subs[i]).subscriber == subscriber && subs[i].channel == channel
            &&& after.len() > subs.len() ==> after.last().subscriber == subscriber && after.last().channel == channel
                && after.last().owner is None && after.last().added == now && after.last().last_refreshed == now
        }),
{
    let after = with_subscription(subs, subscriber, channel, now);
    assert(after.take(subs.len() as int) =~= subs);
}

/// A subscription that is held for another node is there afterwards, refreshed
/// now. Every entry stays in its place with its subscriber, its channel, its
/// owner and the time since which it stands, and what is not held for that node
/// is left alone.
pub proof fn law_holding_changes_nothing_else(
    subs: Seq<Subscription>,
    subscriber: Seq<u8>,
    channel: Seq<u8>,
    owner: Seq<u8>,
    now: u64,
)
    ensures
        ({
            let after = with_backup(subs, subscriber, channel, owner, now);
            &&& subs.len() <= after.len() <= subs.len() + 1
            &&& after.len() == subs.len() <==> exists|i: int|
                0 <= i < subs.len() && (#[trigger] subs[i]).subscriber == subscriber && subs[i].channel == channel
                    && subs[i].owner == Some(owner)
            &&& exists|k: int|
                0 <= k < after.len() && (#[trigger] after[k]).subscriber == subscriber && after[k].channel == channel
                    && after[k].owner == Some(owner) && after[k].last_refreshed == now
            &&& forall|i: int|
                0 <= i < subs.len() ==> (#[trigger] after[i]).subscriber == subs[i].subscriber && after[i].channel
                    == subs[i].channel && after[i].owner == subs[i].owner && after[i].added == subs[i].added
            &&& forall|i: int|
                0 <= i < subs.len() && !(subs[i].subscriber == subscriber && subs[i].channel == channel && subs[i].owner
                    == Some(owner)) ==> #[trigger] after[i] == subs[i]
        }),
    decreases subs.len(),
{
    let after = with_backup(subs, subscriber, channel, owner, now);
    if subs.len() == 0 {
        assert(after[0].last_refreshed == now);
    } else if is_backup_of(subscriber, channel, owner)(subs[0]) {
        assert(after[0].last_refreshed == now);
        assert forall|i: int| 0 < i < subs.len() implies #[trigger] after[i] == subs[i] by {
            assert(subs.skip(1)[i - 1] == subs[i]);
        }
    } else {
        let rest = subs.skip(1);
        let tail = with_backup(rest, subscriber, channel, owner, now);
        law_holding_changes_nothing_else(rest, subscriber, channel, owner, now);
        let k = choose|k: int|
            0 <= k < tail.len() && (#[trigger] tail[k]).subscriber == subscriber && tail[k].channel == channel
                && tail[k].owner == Some(owner) && tail[k].last_refreshed == now;
        assert(after[k + 1] == tail[k]);
        assert forall|i: int| 0 < i < after.len() implies #[trigger] after[i] == tail[i - 1] by {}
        assert forall|i: int| 0 < i < subs.len() implies #[trigger] subs[i] == rest[i - 1] by {}
        if exists|i: int|
            0 <= i < rest.len() && (#[trigger] rest[i]).subscriber == subscriber && rest[i].channel == channel
                && rest[i].owner == Some(owner) {
            let i = choose|i: int|
                0 <= i < rest.len() && (#[trigger] rest[i]).subscriber == subscriber && rest[i].channel == channel
                    && rest[i].owner == Some(owner);
            assert(subs[i + 1].subscriber == subscriber);
        }
        if exists|i: int|
            0 <= i < subs.len() && (#[trigger] subs[i]).subscriber == subscriber && subs[i].channel == channel
                && subs[i].owner == Some(owner) {
            let i = choose|i: int|
                0 <= i < subs.len() && (#[trigger] subs[i]).subscriber == subscriber && subs[i].channel == channel
                    && subs[i].owner == Some(owner);
            assert(rest[i - 1].subscriber == subscriber);
        }
    }
}

/// A node's own subscriptions stay, and a held one does exactly as long as it was
/// refreshed no longer than `max_age` ago.
pub proof fn law_held_subscriptions_lapse(subs: Seq<Subscription>, s: Subscription, now: u64, max_age: u64)
    ensures
        subs.filter(is_current(now, max_age)).contains(s) <==> subs.contains(s) && (s.owner is None || now
            - s.last_refreshed <= max_age),
{
    crate::octets::lemma_filter_holds(subs, is_current(now, max_age));
}

/// Whom a channel goes to: each subscriber of the channel, with the node for
/// which the subscription is held, and nobody else.
pub proof fn law_channel_goes_to_its_subscribers(
    subs: Seq<Subscription>,
    channel: Seq<u8>,
    subscriber: Seq<u8>,
    owner: Option<Seq<u8>>,
)
    ensures
        owned_subscribers_of(subs.filter(to_channel(channel))).contains((subscriber, owner)) <==> exists|i: int|
            0 <= i < subs.len() && (#[trigger] subs[i]).channel == channel && subs[i].subscriber == subscriber
                && subs[i].owner == owner,
        subscribers_of(subs.filter(to_channel(channel))).contains(subscriber) <==> subscribed(subs, subscriber, channel),
        channels_of(subs.filter(by_subscriber(subscriber))).contains(channel) <==> subscribed(subs, subscriber, channel),
        subscribed(subs, subscriber, channel) <==> exists|i: int|
            0 <= i < subs.len() && (#[trigger] subs[i]).channel == channel && subs[i].subscriber == subscriber,
{
    let to = subs.filter(to_channel(channel));
    let by = subs.filter(by_subscriber(subscriber));
    crate::octets::lemma_filter_holds(subs, to_channel(channel));
    crate::octets::lemma_filter_holds(subs, by_subscriber(subscriber));
    let owned = owned_subscribers_of(to);
    if owned.contains((subscriber, owner)) {
        let k = owned.index_of((subscriber, owner));
        assert(to.contains(to[k]));
        let i = subs.index_of(to[k]);
        assert(subs[i].channel == channel);
    }
    if exists|i: int|
        0 <= i < subs.len() && (#[trigger] subs[i]).channel == channel && subs[i].subscriber == subscriber
            && subs[i].owner == owner {
        let i = choose|i: int|
            0 <= i < subs.len() && (#[trigger] subs[i]).channel == channel && subs[i].subscriber == subscriber
                && subs[i].owner == owner;
        assert(subs.contains(subs[i]));
        assert(to.contains(subs[i]));
        let k = to.index_of(subs[i]);
        assert(owned[k] == (subscriber, owner));
    }
    let names = subscribers_of(to);
    if names.contains(subscriber) {
        let k = names.index_of(subscriber);
        assert(to.contains(to[k]));
        let i = subs.index_of(to[k]);
        assert(subs[i].subscriber == subscriber);
    }
    let channels = channels_of(by);
    if channels.contains(channel) {
        let k = channels.index_of(channel);
        assert(by.contains(by[k]));
        let i = subs.index_of(by[k]);
        assert(subs[i].subscriber == subscriber);
    }
    if subscribed(subs, subscriber, channel) {
        let i = choose|i: int|
            0 <= i < subs.len() && (#[trigger] subs[i]).subscriber == subscriber && subs[i].channel == channel;
        assert(subs.contains(subs[i]));
        assert(to.contains(subs[i]));
        assert(by.contains(subs[i]));
        let k = to.index_of(subs[i]);
        assert(names[k] == subscriber);
        let j = by.index_of(subs[i]);
        assert(channels[j] == channel);
        assert(subs[i].channel == channel);
    }
}

/// What is held for other nodes: every subscription with an owner, and no other.
pub proof fn law_held_subscriptions_have_owners(subs: Seq<Subscription>, t: (Seq<u8>, Seq<u8>, Seq<u8>))
    ensures
        backup_triples_of(subs.filter(is_backup())).contains(t) <==> exists|i: int|
            0 <= i < subs.len() && (#[trigger] subs[i]).subscriber == t.0 && subs[i].channel == t.1 && subs[i].owner
                == Some(t.2),
{
    let held = subs.filter(is_backup());
    let all = backup_triples_of(held);
    crate::octets::lemma_filter_holds(subs, is_backup());
    if all.contains(t) {
        let k = all.index_of(t);
        assert(held.contains(held[k]));
        let i = subs.index_of(held[k]);
        assert(subs[i].subscriber == t.0);
        assert(subs[i].owner is Some);
    }
    if exists|i: int|
        0 <= i < subs.len() && (#[trigger] subs[i]).subscriber == t.0 && subs[i].channel == t.1 && subs[i].owner
            == Some(t.2) {
        let i = choose|i: int|
            0 <= i < subs.len() && (#[trigger] subs[i]).subscriber == t.0 && subs[i].channel == t.1 && subs[i].owner
                == Some(t.2);
        assert(subs.contains(subs[i]));
        assert(held.contains(subs[i]));
        let k = held.index_of(subs[i]);
        assert(all[k] == t);
    }
}

/// An entry that comes on top is held for the node, and is fresh.
pub proof fn lemma_held_entry_is_new(
    subs: Seq<Subscription>,
    subscriber: Seq<u8>,
    channel: Seq<u8>,
    owner: Seq<u8>,
    now: u64,
)
    ensures
        ({
            let after = with_backup(subs, subscriber, channel, owner, now);
            &&& forall|i: int|
                subs.len() <= i < after.len() ==> #[trigger] after[i] == (Subscription {
                    subscriber,
                    channel,
                    added: now,
                    owner: Some(owner),
                    last_refreshed: now,
                })
            &&& forall|i: int|
                0 <= i < subs.len() ==> (#[trigger] after[i]).last_refreshed == subs[i].last_refreshed
                    || after[i].last_refreshed == now
        }),
    decreases subs.len(),
{
    let after = with_backup(subs, subscriber, channel, owner, now);
    let new = Subscription { subscriber, channel, added: now, owner: Some(owner), last_refreshed: now };
    if subs.len() > 0 {
        let rest = subs.skip(1);
        let tail = if is_backup_of(subscriber, channel, owner)(subs[0]) {
            rest
        } else {
            with_backup(rest, subscriber, channel, owner, now)
        };
        lemma_held_entry_is_new(rest, subscriber, channel, owner, now);
        law_holding_changes_nothing_else(rest, subscriber, channel, owner, now);
        assert(after =~= seq![after[0]] + tail);
        assert forall|i: int| subs.len() <= i < after.len() implies #[trigger] after[i] == new by {
            assert(after[i] == tail[i - 1]);
        }
        assert forall|i: int| 0 <= i < subs.len() implies (#[trigger] after[i]).last_refreshed == subs[i].last_refreshed
            || after[i].last_refreshed == now by {
            if i > 0 {
                assert(after[i] == tail[i - 1]);
                assert(rest[i - 1] == subs[i]);
            }
        }
    }
}

/// Whoever subscribes is a subscriber of the channel, once, until they
/// unsubscribe, and nobody else comes or goes with them.
pub proof fn law_subscriber_until_the_end(
    table: &mut SubscriptionTable,
    subscriber: Vec<u8>,
    channel: Vec<u8>,
    now: u64,
    new: bool,
    later: &mut SubscriptionTable,
    s: &[u8],
    c: &[u8],
    ended: bool,
    x: Subscription,
)
    requires
        call_ensures(SubscriptionTable::subscribe, (table, subscriber, channel, now), new),
        *old(later) == *final(table),
        call_ensures(SubscriptionTable::unsubscribe, (later, s, c), ended),
        s@ == subscriber@,
        c@ == channel@,
    ensures
        subscribed(final(table)@, subscriber@, channel@),
        new <==> !subscribed(old(table)@, subscriber@, channel@),
        ended,
        !subscribed(final(later)@, subscriber@, channel@),
        x.subscriber != subscriber@ || x.channel != channel@ ==> (final(later)@.contains(x) <==> old(table)@.contains(x)),
{
    let after = final(table)@;
    let left = final(later)@;
    law_subscribing_is_idempotent(old(table)@, subscriber@, channel@, now, now);
    let test = is_other_pair(subscriber@, channel@);
    crate::octets::lemma_filter_holds(after, test);
    let i = choose|i: int|
        0 <= i < after.len() && (#[trigger] after[i]).subscriber == subscriber@ && after[i].channel == channel@;
    assert(!test(after[i]));
    if left.len() == after.len() {
        lemma_all_kept(after, test, i);
    }
    if subscribed(left, subscriber@, channel@) {
        let j = choose|j: int|
            0 <= j < left.len() && (#[trigger] left[j]).subscriber == subscriber@ && left[j].channel == channel@;
        assert(left.contains(left[j]));
        assert(test(left[j]));
    }
    if x.subscriber != subscriber@ || x.channel != channel@ {
        assert(test(x));
        if after.contains(x) {
            let k = after.index_of(x);
            assert(old(table)@.len() <= after.len());
            if k < old(table)@.len() {
                assert(old(table)@[k] == x);
            }
        }
        if old(table)@.contains(x) {
            let k = old(table)@.index_of(x);
            assert(after[k] == x);
        }
    }
}

proof fn lemma_all_kept(s: Seq<Subscription>, keep: spec_fn(Subscription) -> bool, i: int)
    requires
        0 <= i < s.len(),
        !keep(s[i]),
    ensures
        s.filter(keep).len() < s.len(),
    decreases s.len(),
{
    reveal(Seq::filter);
    let rest = s.drop_last();
    if i < rest.len() {
        lemma_all_kept(rest, keep, i);
    } else {
        rest.lemma_filter_len(keep);
    }
}

} // verus!
