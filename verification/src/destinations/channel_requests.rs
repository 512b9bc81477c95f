//! Requests of subscribers: to subscribe, to unsubscribe, and to take what
//! waits.
use vstd::prelude::*;
use crate::config::{effective_cost_of, effective_stamp_cost, NodeConfig};
use crate::deferred_queue::{handed_out, is_of, is_of_channel, waiting_for, Deferred, PendingBlob};
use crate::destinations::fed_node::FedNode;
use crate::destinations::payload::{
    bin_at, decode_channel_pull_request, encode_pull_response, encode_subscribe_response, pull_value, pulled_channel,
    subscribe_value, PayloadError, Signed,
};
use crate::destinations::{CHANNEL_HASH_LEN, DEFAULT_PULL_PAGE_SIZE, PENDING_BACKUP_CAP};
use crate::lists::{after_n, first_n, without_first};
use crate::lxmf_propagation::wire::{encode_error, error_reply, ERROR_NO_IDENTITY};
use crate::msgpack::{msgpack_write, pair_views, write_bool, Packed};
use crate::notify::channel_view;
use crate::octets::copied;
use crate::subscription::{is_other_pair, with_subscription};

verus! {

/// The response that says yes or no.
pub open spec fn bool_reply(b: bool) -> Seq<u8> {
    seq![if b { 0xc3u8 } else { 0xc2u8 }]
}

/// Whether a signed request to subscribe is granted: it names a channel, and
/// the tier of the signer may subscribe.
pub open spec fn may_subscribe(config: NodeConfig, s: Signed) -> bool {
    s.value@.len() == CHANNEL_HASH_LEN && config.spec_policy_for(s.identity_hash@).allow_subscription
}

/// Whether a request to subscribe is signed and granted.
pub open spec fn grants(config: NodeConfig, signed: Result<Signed, PayloadError>) -> bool {
    signed is Ok && may_subscribe(config, signed->Ok_0)
}

/// What waits to be passed on to a backup node once one more is to: nothing
/// more where too much waits.
pub open spec fn with_pending(list: Seq<(Seq<u8>, Seq<u8>)>, subscriber: Seq<u8>, channel: Seq<u8>) -> Seq<
    (Seq<u8>, Seq<u8>),
> {
    if list.len() < PENDING_BACKUP_CAP {
        list.push((subscriber, channel))
    } else {
        list
    }
}

/// How many blobs a subscriber takes at once.
pub open spec fn page_size_of(config: NodeConfig, subscriber: Seq<u8>) -> nat {
    match config.spec_policy_for(subscriber).deferred_pull_batch_limit {
        Some(n) => n as nat,
        None => DEFAULT_PULL_PAGE_SIZE as nat,
    }
}

/// The response to a pull of all channels.
pub open spec fn pull_reply(entries: Seq<Deferred>, subscriber: Seq<u8>, page: nat) -> Seq<u8> {
    let left = without_first(entries, is_of(subscriber), page);
    msgpack_write(
        pull_value(
            handed_out(first_n(waiting_for(entries, subscriber), page)),
            waiting_for(left, subscriber).len() > 0,
        ),
    )
}

/// The response to a pull of one channel.
pub open spec fn channel_pull_reply(entries: Seq<Deferred>, subscriber: Seq<u8>, channel: Seq<u8>, page: nat) -> Seq<
    u8,
> {
    let test = is_of_channel(subscriber, channel);
    let left = without_first(entries, test, page);
    msgpack_write(pull_value(handed_out(first_n(entries.filter(test), page)), left.filter(test).len() > 0))
}

impl FedNode {
    /// Subscribes the signer to the channel that the request names. The
    /// subscription is to be passed on to the backup node. The response tells
    /// the cost of stamps.
    pub fn on_subscribe(&mut self, signed: Result<Signed, PayloadError>, now: u64) -> (r: Vec<u8>)
        ensures
            *final(self) == (FedNode {
                subscription_table: final(self).subscription_table,
                pending_backup_pushes: final(self).pending_backup_pushes,
                ..*old(self)
            }),
            grants(old(self).config, signed) ==> {
                &&& r@ == msgpack_write(
                    subscribe_value(true, effective_cost_of(old(self).config.default_policy.stamp_cost)),
                )
                &&& final(self).subscription_table@ == with_subscription(
                    old(self).subscription_table@,
                    signed->Ok_0.identity_hash@,
                    signed->Ok_0.value@,
                    now,
                )
                &&& pair_views(final(self).pending_backup_pushes@) == with_pending(
                    pair_views(old(self).pending_backup_pushes@),
                    signed->Ok_0.identity_hash@,
                    signed->Ok_0.value@,
                )
            },
            !grants(old(self).config, signed) ==> r@ == bool_reply(false) && *final(self)
                == *old(self),
    {
        let s: Signed = match signed {
            Ok(s) => s,
            Err(_) => return write_bool(false),
        };
        if s.value.len() != CHANNEL_HASH_LEN {
            return write_bool(false);
        }
        if !self.config.policy_for(s.identity_hash.as_slice()).allow_subscription {
            return write_bool(false);
        }
        self.subscription_table.subscribe(
            copied(s.identity_hash.as_slice()),
            copied(s.value.as_slice()),
            now,
        );
        if self.pending_backup_pushes.len() < PENDING_BACKUP_CAP {
            let ghost was = pair_views(self.pending_backup_pushes@);
            let pair: (Vec<u8>, Vec<u8>) = (s.identity_hash, s.value);
            self.pending_backup_pushes.push(pair);
            assert(pair_views(self.pending_backup_pushes@) =~= was.push((pair.0@, pair.1@)));
        }
        encode_subscribe_response(true, effective_stamp_cost(self.config.default_policy.stamp_cost))
    }

    /// Ends the signer's subscription to the channel that the request names.
    pub fn on_unsubscribe(&mut self, signed: Result<Signed, PayloadError>) -> (r: Vec<u8>)
        ensures
            *final(self) == (FedNode { subscription_table: final(self).subscription_table, ..*old(self) }),
            r@ == bool_reply(signed is Ok),
            signed matches Ok(s) ==> final(self).subscription_table@ == old(self).subscription_table@.filter(
                is_other_pair(s.identity_hash@, s.value@),
            ),
            signed is Err ==> *final(self) == *old(self),
    {
        match signed {
            Ok(s) => {
                self.subscription_table.unsubscribe(s.identity_hash.as_slice(), s.value.as_slice());
                write_bool(true)
            },
            Err(_) => write_bool(false),
        }
    }

    /// How many blobs a subscriber takes at once.
    pub fn page_size(&self, subscriber_hash: &[u8]) -> (r: usize)
        ensures
            r == page_size_of(self.config, subscriber_hash@),
    {
        match self.config.policy_for(subscriber_hash).deferred_pull_batch_limit {
            Some(n) => n,
            None => DEFAULT_PULL_PAGE_SIZE,
        }
    }

    /// Hands out the next page of what waits for the caller. A caller who has
    /// not identified itself is answered with that error.
    pub fn on_pull(&mut self, caller: Option<&[u8]>) -> (r: Vec<u8>)
        ensures
            *final(self) == (FedNode { deferred_queue: final(self).deferred_queue, ..*old(self) }),
            final(self).deferred_queue.global_limit == old(self).deferred_queue.global_limit,
            match channel_view(caller) {
                None => r@ == error_reply(ERROR_NO_IDENTITY) && *final(self) == *old(self),
                Some(subscriber) => {
                    let page = page_size_of(old(self).config, subscriber);
                    &&& final(self).deferred_queue@ == without_first(
                        old(self).deferred_queue@,
                        is_of(subscriber),
                        page,
                    )
                    &&& r@ == pull_reply(old(self).deferred_queue@, subscriber, page)
                },
            },
    {
        match caller {
            None => encode_error(ERROR_NO_IDENTITY),
            Some(subscriber_hash) => {
                let page: usize = self.page_size(subscriber_hash);
                let pending: Vec<PendingBlob> = self.deferred_queue.drain_batch(subscriber_hash, page);
                let more: bool = self.deferred_queue.has_pending(subscriber_hash);
                encode_pull_response(pending, more)
            },
        }
    }

    /// Hands out the next page of what waits for the caller on the channel
    /// that the request names. A caller who has not identified
    /// itself is answered with that error, and a request that names no channel
    /// with an empty page.
    pub fn on_channel_pull(&mut self, caller: Option<&[u8]>, data: &[u8]) -> (r: Vec<u8>)
        ensures
            *final(self) == (FedNode { deferred_queue: final(self).deferred_queue, ..*old(self) }),
            final(self).deferred_queue.global_limit == old(self).deferred_queue.global_limit,
            match (channel_view(caller), pulled_channel(data@, bin_at(data@))) {
                (None, _) => r@ == error_reply(ERROR_NO_IDENTITY) && *final(self) == *old(self),
                (Some(_), None) => r@ == msgpack_write(pull_value(Seq::empty(), false)) && *final(self)
                    == *old(self),
                (Some(subscriber), Some(channel)) => {
                    let page = page_size_of(old(self).config, subscriber);
                    &&& final(self).deferred_queue@ == without_first(
                        old(self).deferred_queue@,
                        is_of_channel(subscriber, channel),
                        page,
                    )
                    &&& r@ == channel_pull_reply(old(self).deferred_queue@, subscriber, channel, page)
                },
            },
    {
        match caller {
            None => encode_error(ERROR_NO_IDENTITY),
            Some(subscriber_hash) => match decode_channel_pull_request(data) {
                Err(_) => {
                    let none: Vec<PendingBlob> = Vec::new();
                    assert(crate::deferred_queue::pending_views(none@) =~= Seq::empty());
                    encode_pull_response(none, false)
                },
                Ok(channel_hash) => {
                    let page: usize = self.page_size(subscriber_hash);
                    let pending: Vec<PendingBlob> = self.deferred_queue.drain_channel_batch(
                        subscriber_hash,
                        channel_hash.as_slice(),
                        page,
                    );
                    let more: bool = self.deferred_queue.has_pending_channel(
                        subscriber_hash,
                        channel_hash.as_slice(),
                    );
                    encode_pull_response(pending, more)
                },
            },
        }
    }
}

/// A page is said to be the last exactly where nothing is left behind it.
pub proof fn law_more_pending_is_true(entries: Seq<Deferred>, subscriber: Seq<u8>, page: nat)
    ensures
        ({
            let left = waiting_for(without_first(entries, is_of(subscriber), page), subscriber);
            &&& left == after_n(waiting_for(entries, subscriber), page)
            &&& left.len() > 0 <==> waiting_for(entries, subscriber).len() > page
        }),
{
    crate::lists::lemma_without_first_left(entries, is_of(subscriber), page);
}

/// What one subscriber pulls, and what a pull of one channel takes, leaves
/// what waits for others and on other channels as it is.
pub proof fn law_pull_takes_only_its_own(
    entries: Seq<Deferred>,
    subscriber: Seq<u8>,
    channel: Seq<u8>,
    other: Seq<u8>,
    other_channel: Seq<u8>,
    page: nat,
)
    requires
        other != subscriber || other_channel != channel,
    ensures
        without_first(entries, is_of_channel(subscriber, channel), page).filter(is_of_channel(other, other_channel))
            == entries.filter(is_of_channel(other, other_channel)),
        other != subscriber ==> waiting_for(without_first(entries, is_of(subscriber), page), other) == waiting_for(
            entries,
            other,
        ),
{
    crate::lists::lemma_without_first_others(
        entries,
        is_of_channel(subscriber, channel),
        page,
        is_of_channel(other, other_channel),
    );
    if other != subscriber {
        crate::lists::lemma_without_first_others(entries, is_of(subscriber), page, is_of(other));
    }
}

/// A pull hands out the blobs that wait for the subscriber, the first ones in
/// their order, as many as a page holds, and says that more are left exactly
/// where more than a page waited.
pub proof fn law_page_is_what_waited_first(
    entries: Seq<Deferred>,
    subscriber: Seq<u8>,
    page: nat,
    mine: spec_fn(Deferred) -> bool,
    items: Seq<Packed>,
)
    requires
        forall|e: Deferred| #[trigger] mine(e) <==> e.subscriber == subscriber,
        items.len() == (if entries.filter(mine).len() < page {
            entries.filter(mine).len()
        } else {
            page
        }),
        forall|i: int|
            0 <= i < items.len() ==> #[trigger] items[i] == Packed::Array(
                seq![Packed::Binary(entries.filter(mine)[i].channel), Packed::Binary(entries.filter(mine)[i].blob)],
            ),
    ensures
        pull_reply(entries, subscriber, page) == msgpack_write(
            Packed::Array(seq![Packed::Array(items), Packed::Boolean(entries.filter(mine).len() > page)]),
        ),
{
    crate::octets::lemma_filter_agree(entries, mine, is_of(subscriber));
    crate::lists::lemma_without_first_left(entries, is_of(subscriber), page);
    let waiting = entries.filter(mine);
    assert(waiting_for(entries, subscriber) == waiting);
    let pending = handed_out(first_n(waiting, page));
    assert(crate::destinations::payload::pulled_items(pending) =~= items);
}

/// A pull of one channel hands out the blobs of that channel that wait for the
/// subscriber, in the same way.
pub proof fn law_channel_page_is_what_waited_first(
    entries: Seq<Deferred>,
    subscriber: Seq<u8>,
    channel: Seq<u8>,
    page: nat,
    mine: spec_fn(Deferred) -> bool,
    items: Seq<Packed>,
)
    requires
        forall|e: Deferred| #[trigger] mine(e) <==> e.subscriber == subscriber && e.channel == channel,
        items.len() == (if entries.filter(mine).len() < page {
            entries.filter(mine).len()
        } else {
            page
        }),
        forall|i: int|
            0 <= i < items.len() ==> #[trigger] items[i] == Packed::Array(
                seq![Packed::Binary(channel), Packed::Binary(entries.filter(mine)[i].blob)],
            ),
    ensures
        channel_pull_reply(entries, subscriber, channel, page) == msgpack_write(
            Packed::Array(seq![Packed::Array(items), Packed::Boolean(entries.filter(mine).len() > page)]),
        ),
{
    let test = is_of_channel(subscriber, channel);
    crate::octets::lemma_filter_agree(entries, mine, test);
    crate::octets::lemma_filter_holds(entries, test);
    crate::lists::lemma_without_first_left(entries, test, page);
    let waiting = entries.filter(mine);
    assert forall|i: int| 0 <= i < waiting.len() implies (#[trigger] waiting[i]).channel == channel by {
        assert(waiting.contains(waiting[i]));
        assert(test(waiting[i]));
    }
    let pending = handed_out(first_n(waiting, page));
    assert(crate::destinations::payload::pulled_items(pending) =~= items);
}

/// A page holds 25 blobs, where the tier of the subscriber says nothing else.
pub proof fn law_page_size(config: NodeConfig, subscriber: Seq<u8>, vip: bool)
    requires
        vip <==> exists|i: int|
            0 <= i < config.vip_subscribers@.len() && (#[trigger] config.vip_subscribers@[i])@ == subscriber,
    ensures
        ({
            let limit = if vip {
                config.vip_policy.deferred_pull_batch_limit
            } else {
                config.default_policy.deferred_pull_batch_limit
            };
            &&& limit is None ==> page_size_of(config, subscriber) == 25
            &&& limit matches Some(n) ==> page_size_of(config, subscriber) == n
        }),
{
    crate::config::law_tier_of(config, subscriber, vip);
}

/// A request to subscribe is granted exactly where it is signed, names a
/// channel by 16 bytes, and comes from a subscriber whose tier may subscribe.
pub proof fn law_who_may_subscribe(config: NodeConfig, signed: Result<Signed, PayloadError>, vip: bool)
    requires
        signed matches Ok(s) ==> (vip <==> exists|i: int|
            0 <= i < config.vip_subscribers@.len() && (#[trigger] config.vip_subscribers@[i])@ == s.identity_hash@),
    ensures
        signed is Err ==> !grants(config, signed),
        signed matches Ok(s) ==> (grants(config, signed) <==> s.value@.len() == 16 && if vip {
            config.vip_policy.allow_subscription
        } else {
            config.default_policy.allow_subscription
        }),
{
    if let Ok(s) = signed {
        crate::config::law_tier_of(config, s.identity_hash@, vip);
    }
}

/// Up to 1024 subscriptions wait to be passed on to a backup node, in the order
/// in which they came. What comes on top of that does not wait, and nothing
/// that waits is given up for it.
pub proof fn law_pending_are_kept(list: Seq<(Seq<u8>, Seq<u8>)>, subscriber: Seq<u8>, channel: Seq<u8>)
    ensures
        list.len() < 1024 ==> with_pending(list, subscriber, channel) == list + seq![(subscriber, channel)],
        list.len() >= 1024 ==> with_pending(list, subscriber, channel) == list,
{
    assert(list.push((subscriber, channel)) =~= list + seq![(subscriber, channel)]);
}

/// The answer yes is read as `true`, and no as `false`.
pub proof fn law_answers_differ(b: bool)
    ensures
        bool_reply(b).len() == 1,
        bool_reply(true)[0] == 0xc3,
        bool_reply(false)[0] == 0xc2,
{
}

/// An answer of yes or no is read as what was meant.
pub proof fn law_answer_is_read_back(b: bool)
    ensures
        crate::msgpack::bool_read(bool_reply(b)) == Some(b),
{
}

/// Whoever is granted a subscription is a subscriber until they unsubscribe, and
/// it is passed on to a backup node as long as no more than 1024 wait for that.
/// A request that is not granted changes nothing, and is answered with no.
pub proof fn law_granted_subscription_stands(
    node: &mut FedNode,
    signed: Result<Signed, PayloadError>,
    now: u64,
    r: Vec<u8>,
    vip: bool,
)
    requires
        call_ensures(FedNode::on_subscribe, (node, signed, now), r),
        signed matches Ok(s) ==> (vip <==> exists|i: int|
            0 <= i < old(node).config.vip_subscribers@.len() && (#[trigger] old(node).config.vip_subscribers@[i])@
                == s.identity_hash@),
    ensures
        ({
            let granted = signed is Ok && signed->Ok_0.value@.len() == 16 && if vip {
                old(node).config.vip_policy.allow_subscription
            } else {
                old(node).config.default_policy.allow_subscription
            };
            let pair = (signed->Ok_0.identity_hash@, signed->Ok_0.value@);
            &&& granted ==> crate::subscription::subscribed(final(node).subscription_table@, pair.0, pair.1)
            &&& granted && old(node).pending_backup_pushes@.len() < 1024 ==> pair_views(
                final(node).pending_backup_pushes@,
            ) == pair_views(old(node).pending_backup_pushes@) + seq![pair]
            &&& granted && old(node).pending_backup_pushes@.len() >= 1024 ==> pair_views(
                final(node).pending_backup_pushes@,
            ) == pair_views(old(node).pending_backup_pushes@)
            &&& !granted ==> *final(node) == *old(node) && r@ == seq![0xc2u8]
            &&& final(node).deferred_queue == old(node).deferred_queue
        }),
{
    law_who_may_subscribe(old(node).config, signed, vip);
    if let Ok(s) = signed {
        law_pending_are_kept(pair_views(old(node).pending_backup_pushes@), s.identity_hash@, s.value@);
        crate::subscription::law_subscribing_is_idempotent(
            old(node).subscription_table@,
            s.identity_hash@,
            s.value@,
            now,
            now,
        );
    }
}

/// A pull takes the first page of what waits for whoever pulls and leaves the
/// rest in its order. What waits for others is not touched, and a caller who does
/// not say who they are gets nothing.
pub proof fn law_pull_takes_a_page(node: &mut FedNode, caller: Option<&[u8]>, r: Vec<u8>, other: Seq<u8>)
    requires
        call_ensures(FedNode::on_pull, (node, caller), r),
        caller is Some ==> other != caller->0@,
    ensures
        caller is None ==> *final(node) == *old(node) && r@ == msgpack_write(Packed::UInt(0xf0)),
        waiting_for(final(node).deferred_queue@, other) == waiting_for(old(node).deferred_queue@, other),
        caller is Some ==> {
            let page = page_size_of(old(node).config, caller->0@) as int;
            let waiting = waiting_for(old(node).deferred_queue@, caller->0@);
            let left = waiting_for(final(node).deferred_queue@, caller->0@);
            &&& waiting.len() <= page ==> left.len() == 0
            &&& waiting.len() > page ==> left == waiting.skip(page)
        },
        final(node).subscription_table == old(node).subscription_table,
{
    if caller is Some {
        let entries = old(node).deferred_queue@;
        let subscriber = caller->0@;
        let page = page_size_of(old(node).config, subscriber);
        law_more_pending_is_true(entries, subscriber, page);
        crate::deferred_queue::law_subscribers_do_not_interfere(entries, subscriber, other, page);
    }
}

/// Whoever unsubscribes is no subscriber of the channel any more, and nobody else
/// is touched. A request that is not signed changes nothing.
pub proof fn law_unsubscribing_by_request(
    node: &mut FedNode,
    signed: Result<Signed, PayloadError>,
    r: Vec<u8>,
    x: crate::subscription::Subscription,
)
    requires
        call_ensures(FedNode::on_unsubscribe, (node, signed), r),
    ensures
        signed is Err ==> *final(node) == *old(node) && r@ == seq![0xc2u8],
        signed is Ok ==> r@ == seq![0xc3u8],
        signed is Ok ==> (final(node).subscription_table@.contains(x) <==> old(node).subscription_table@.contains(x)
            && (x.subscriber != signed->Ok_0.identity_hash@ || x.channel != signed->Ok_0.value@)),
        final(node).deferred_queue == old(node).deferred_queue,
{
    if let Ok(s) = signed {
        crate::octets::lemma_filter_holds(
            old(node).subscription_table@,
            is_other_pair(s.identity_hash@, s.value@),
        );
    }
}

/// A pull of one channel leaves what waits on other channels, and for others. One
/// that names no channel takes nothing.
pub proof fn law_channel_pull_leaves_the_rest(
    node: &mut FedNode,
    caller: Option<&[u8]>,
    data: &[u8],
    r: Vec<u8>,
    other: Seq<u8>,
    other_channel: Seq<u8>,
)
    requires
        call_ensures(FedNode::on_channel_pull, (node, caller, data), r),
        caller is Some && data@.len() == 16 ==> other != caller->0@ || other_channel != data@,
    ensures
        caller is None ==> *final(node) == *old(node),
        data@.len() == 16 ==> final(node).deferred_queue@.filter(is_of_channel(other, other_channel))
            == old(node).deferred_queue@.filter(is_of_channel(other, other_channel)),
        data@.len() != 16 && bin_at(data@).len() != 16 ==> *final(node) == *old(node),
{
    if caller is Some && data@.len() == 16 {
        law_pull_takes_only_its_own(
            old(node).deferred_queue@,
            caller->0@,
            data@,
            other,
            other_channel,
            page_size_of(old(node).config, caller->0@),
        );
    }
}

} // verus!
