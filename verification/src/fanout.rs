//! Delivering a blob of a channel to every subscriber.
//!
//! A subscriber is tried on a bound link, then on a stream, then with a packet.
//! The first route that takes the blob ends the attempt; where none does the
//! blob is handed off.
use vstd::prelude::*;
use crate::config::NodeConfig;
use crate::digest::{destination_hash, destination_hash_of, texts};
use crate::destinations::APP_NAME;
use crate::distro::Sending;
use crate::handoff::Unconfirmed;
use crate::id_map::{has_key, put, value_of, IdMap};
use crate::lxmf_propagation::node::DELIVERY_ASPECT;
use crate::octets::{copied, joined};
use crate::stream_registry::StreamDispatchResult;
use crate::subscription::{owned_subscribers_of, owned_views, to_channel, SubscriptionTable};

verus! {

/// Where the delivery to one subscriber stands.
#[derive(Clone, Copy, Debug, PartialEq, Eq, Structural)]
pub enum Stage {
    /// Nothing has been tried.
    Start,
    /// A bound link is to be tried.
    Link,
    /// A stream is to be tried.
    Stream,
    /// The subscriber's identity is to be recalled.
    Recall,
    /// A path to the subscriber is to be looked for.
    Path,
    /// A packet is to be sent.
    Packet,
    /// Another node delivers.
    Suppressed,
    /// It was pushed on a bound link.
    Pushed,
    /// It was pushed on a stream.
    Streamed,
    /// It was sent in a packet.
    Sent,
    /// It is to be handed off.
    HandOff,
    /// It is to be handed off, and a path is to be asked for.
    HandOffAndRequestPath,
}

/// Something learned on the way.
#[derive(Clone, Copy, Debug, PartialEq, Eq, Structural)]
pub enum Event {
    /// Whether another node that owns the subscriber can be reached, and
    /// whether a link of the subscriber is bound for the channel.
    Found { owner_reachable: bool, has_session: bool },
    /// What became of the push on a link or a stream.
    Dispatched(StreamDispatchResult),
    /// Whether the subscriber's identity is known.
    Recalled(bool),
    /// Whether there is a path to the subscriber.
    PathKnown(bool),
    /// What became of the packet.
    PacketDone(Sending),
}

/// The next stage. What does not belong to a stage changes nothing.
pub open spec fn next_stage(stage: Stage, event: Event) -> Stage {
    match (stage, event) {
        (Stage::Start, Event::Found { owner_reachable, has_session }) => if owner_reachable {
            Stage::Suppressed
        } else if has_session {
            Stage::Link
        } else {
            Stage::Stream
        },
        (Stage::Link, Event::Dispatched(result)) => if result.sent > 0 {
            Stage::Pushed
        } else {
            Stage::Stream
        },
        (Stage::Stream, Event::Dispatched(result)) => if result.sent > 0 {
            Stage::Streamed
        } else {
            Stage::Recall
        },
        (Stage::Recall, Event::Recalled(known)) => if known {
            Stage::Path
        } else {
            Stage::HandOff
        },
        (Stage::Path, Event::PathKnown(known)) => if known {
            Stage::Packet
        } else {
            Stage::HandOff
        },
        (Stage::Packet, Event::PacketDone(sending)) => match sending {
            Sending::Sent => Stage::Sent,
            Sending::NoInterface => Stage::HandOffAndRequestPath,
            _ => Stage::HandOff,
        },
        _ => stage,
    }
}

/// Whether nothing more is to be tried.
pub open spec fn is_final(stage: Stage) -> bool {
    match stage {
        Stage::Start | Stage::Link | Stage::Stream | Stage::Recall | Stage::Path | Stage::Packet => false,
        _ => true,
    }
}

/// Whether the blob is on its way to the subscriber.
pub open spec fn is_delivered(stage: Stage) -> bool {
    stage == Stage::Pushed || stage == Stage::Streamed || stage == Stage::Sent
}

/// Whether the blob is to be handed off.
pub open spec fn is_handed_off(stage: Stage) -> bool {
    stage == Stage::HandOff || stage == Stage::HandOffAndRequestPath
}

/// Everything that the delivery to one subscriber may turn on.
pub struct Circumstances {
    pub owner_reachable: bool,
    pub has_session: bool,
    pub link: StreamDispatchResult,
    pub stream: StreamDispatchResult,
    pub recalled: bool,
    pub path_known: bool,
    pub sending: Sending,
}

/// What the delivery to a subscriber comes to.
pub open spec fn outcome_of(c: Circumstances) -> Stage {
    if c.owner_reachable {
        Stage::Suppressed
    } else if c.has_session && c.link.sent > 0 {
        Stage::Pushed
    } else if c.stream.sent > 0 {
        Stage::Streamed
    } else if !c.recalled || !c.path_known {
        Stage::HandOff
    } else {
        match c.sending {
            Sending::Sent => Stage::Sent,
            Sending::NoInterface => Stage::HandOffAndRequestPath,
            _ => Stage::HandOff,
        }
    }
}

/// The event that a stage waits for.
pub open spec fn awaited(c: Circumstances, stage: Stage) -> Event {
    match stage {
        Stage::Start => Event::Found { owner_reachable: c.owner_reachable, has_session: c.has_session },
        Stage::Link => Event::Dispatched(c.link),
        Stage::Stream => Event::Dispatched(c.stream),
        Stage::Recall => Event::Recalled(c.recalled),
        Stage::Path => Event::PathKnown(c.path_known),
        _ => Event::PacketDone(c.sending),
    }
}

/// The stage after `n` of the events that are waited for.
pub open spec fn stage_after(c: Circumstances, n: nat) -> Stage
    decreases n,
{
    if n == 0 {
        Stage::Start
    } else {
        let before = stage_after(c, (n - 1) as nat);
        next_stage(before, awaited(c, before))
    }
}

/// Trying one route after the other comes to what the circumstances call for,
/// within six steps.
pub proof fn law_routes_are_tried_in_order(c: Circumstances)
    ensures
        stage_after(c, 6) == outcome_of(c),
        is_final(outcome_of(c)),
{
    reveal_with_fuel(stage_after, 7);
}

/// Once the blob is on its way by one route, or handed off, nothing that
/// happens later starts another.
pub proof fn law_one_route_only(stage: Stage, event: Event)
    requires
        is_final(stage),
    ensures
        next_stage(stage, event) == stage,
        !(is_delivered(stage) && is_handed_off(stage)),
{
}

/// The next stage, as [`next_stage`] says.
pub fn advance(stage: Stage, event: Event) -> (r: Stage)
    ensures
        r == next_stage(stage, event),
{
    match (stage, event) {
        (Stage::Start, Event::Found { owner_reachable, has_session }) => if owner_reachable {
            Stage::Suppressed
        } else if has_session {
            Stage::Link
        } else {
            Stage::Stream
        },
        (Stage::Link, Event::Dispatched(result)) => if result.delivered() {
            Stage::Pushed
        } else {
            Stage::Stream
        },
        (Stage::Stream, Event::Dispatched(result)) => if result.delivered() {
            Stage::Streamed
        } else {
            Stage::Recall
        },
        (Stage::Recall, Event::Recalled(known)) => if known {
            Stage::Path
        } else {
            Stage::HandOff
        },
        (Stage::Path, Event::PathKnown(known)) => if known {
            Stage::Packet
        } else {
            Stage::HandOff
        },
        (Stage::Packet, Event::PacketDone(sending)) => match sending {
            Sending::Sent => Stage::Sent,
            Sending::NoInterface => Stage::HandOffAndRequestPath,
            _ => Stage::HandOff,
        },
        _ => stage,
    }
}

/// Whether nothing more is to be tried.
pub fn is_over(stage: Stage) -> (r: bool)
    ensures
        r == is_final(stage),
{
    match stage {
        Stage::Start | Stage::Link | Stage::Stream | Stage::Recall | Stage::Path | Stage::Packet => false,
        _ => true,
    }
}

/// Whether the blob is on its way to the subscriber.
pub fn delivered(stage: Stage) -> (r: bool)
    ensures
        r == is_delivered(stage),
{
    matches!(stage, Stage::Pushed | Stage::Streamed | Stage::Sent)
}

/// Whether the blob is to be handed off.
pub fn handed_off(stage: Stage) -> (r: bool)
    ensures
        r == is_handed_off(stage),
{
    matches!(stage, Stage::HandOff | Stage::HandOffAndRequestPath)
}

/// The number of deliveries that were handed off.
pub open spec fn handed_off_of(stages: Seq<Stage>) -> nat
    decreases stages.len(),
{
    if stages.len() == 0 {
        0
    } else {
        handed_off_of(stages.drop_last()) + (if is_handed_off(stages.last()) {
            1nat
        } else {
            0nat
        })
    }
}

/// The number of deliveries that were handed off.
pub fn count_handed_off(stages: &Vec<Stage>) -> (r: usize)
    ensures
        r == handed_off_of(stages@),
{
    let mut n: usize = 0;
    let mut i: usize = 0;
    while i < stages.len()
        invariant
            0 <= i <= stages@.len(),
            n == handed_off_of(stages@.take(i as int)),
            n <= i,
        decreases stages@.len() - i,
    {
        assert(stages@.take(i + 1).drop_last() =~= stages@.take(i as int));
        if handed_off(stages[i]) {
            n = n + 1;
        }
        i += 1;
    }
    assert(stages@.take(stages@.len() as int) =~= stages@);
    n
}

/// What a subscriber is sent: the channel, and the blob behind it.
pub fn delivery_payload(channel_hash: &[u8], inner_blob: &[u8]) -> (r: Vec<u8>)
    ensures
        r@ == channel_hash@ + inner_blob@,
{
    joined(channel_hash, inner_blob)
}

/// Where a subscriber receives what is sent to it in packets.
pub fn delivery_destination(subscriber_hash: &[u8]) -> (r: Vec<u8>)
    ensures
        r@ == destination_hash_of(subscriber_hash@, APP_NAME@, seq![DELIVERY_ASPECT@]),
{
    let aspects: [&str; 1] = [DELIVERY_ASPECT];
    let hash: Vec<u8> = destination_hash(subscriber_hash, APP_NAME, &aspects);
    assert(texts(aspects@) =~= seq![DELIVERY_ASPECT@]);
    hash
}

/// A subscriber to whom a blob of a channel could not be delivered: it is
/// queued for and woken under the same hash.
pub fn unconfirmed_subscriber(subscriber_hash: &[u8]) -> (r: Unconfirmed)
    ensures
        r.queue_key@ == subscriber_hash@,
        r.wake_key@ == subscriber_hash@,
{
    Unconfirmed { queue_key: copied(subscriber_hash), wake_key: copied(subscriber_hash) }
}

/// To whom a blob is to be delivered, taken down once, so that the delivery
/// needs nothing of the node.
pub struct FanoutPlan {
    /// The subscribers with their owners.
    pub subscribers: Vec<(Vec<u8>, Option<Vec<u8>>)>,
    /// How many blobs may wait for each subscriber.
    pub deferred_limits: IdMap<usize>,
}

/// The limits of the tiers of a list of subscribers.
pub open spec fn limits_of(config: NodeConfig, subscribers: Seq<Seq<u8>>) -> Seq<(Seq<u8>, usize)>
    decreases subscribers.len(),
{
    if subscribers.len() == 0 {
        Seq::empty()
    } else {
        put(
            limits_of(config, subscribers.drop_last()),
            subscribers.last(),
            config.spec_policy_for(subscribers.last()).deferred_queue_limit,
        )
    }
}

/// The hashes of subscribers with their owners.
pub open spec fn firsts(list: Seq<(Seq<u8>, Option<Seq<u8>>)>) -> Seq<Seq<u8>> {
    list.map_values(|p: (Seq<u8>, Option<Seq<u8>>)| p.0)
}

/// Each subscriber's limit is that of its tier.
pub proof fn law_limits_follow_tiers(config: NodeConfig, subscribers: Seq<Seq<u8>>, sub: Seq<u8>)
    requires
        subscribers.contains(sub),
    ensures
        has_key(limits_of(config, subscribers), sub),
        forall|i: int|
            0 <= i < limits_of(config, subscribers).len() && (#[trigger] limits_of(config, subscribers)[i]).0 == sub
                ==> limits_of(config, subscribers)[i].1 == config.spec_policy_for(sub).deferred_queue_limit,
    decreases subscribers.len(),
{
    let rest = subscribers.drop_last();
    let before = limits_of(config, rest);
    let all = limits_of(config, subscribers);
    if sub == subscribers.last() {
        if has_key(before, sub) {
            let i = choose|i: int| 0 <= i < before.len() && (#[trigger] before[i]).0 == sub;
            assert(all[i].0 == sub);
        } else {
            assert(all[before.len() as int].0 == sub);
            assert forall|i: int| 0 <= i < all.len() && (#[trigger] all[i]).0 == sub implies all[i].1
                == config.spec_policy_for(sub).deferred_queue_limit by {
                if i < before.len() {
                    assert(before[i].0 == sub);
                }
            }
        }
    } else {
        let k = subscribers.index_of(sub);
        assert(rest[k] == sub);
        law_limits_follow_tiers(config, rest, sub);
        let i = choose|i: int| 0 <= i < before.len() && (#[trigger] before[i]).0 == sub;
        assert(all[i].0 == sub);
        assert forall|i: int| 0 <= i < all.len() && (#[trigger] all[i]).0 == sub implies all[i].1
            == config.spec_policy_for(sub).deferred_queue_limit by {
            assert(i < before.len());
            assert(before[i].0 == sub);
        }
    }
}

impl FanoutPlan {
    /// To whom a blob of a channel is to be delivered.
    pub fn build(table: &SubscriptionTable, config: &NodeConfig, channel_hash: &[u8]) -> (r: Self)
        ensures
            owned_views(r.subscribers@) == owned_subscribers_of(table@.filter(to_channel(channel_hash@))),
            r.deferred_limits.wf(),
            r.deferred_limits@ == limits_of(*config, firsts(owned_views(r.subscribers@))),
    {
        let subscribers: Vec<(Vec<u8>, Option<Vec<u8>>)> = table.get_subscribers_with_owner(channel_hash);
        let ghost all = firsts(owned_views(subscribers@));
        let mut limits: IdMap<usize> = IdMap::new();
        let mut i: usize = 0;
        while i < subscribers.len()
            invariant
                0 <= i <= subscribers@.len(),
                all == firsts(owned_views(subscribers@)),
                limits.wf(),
                limits@ == limits_of(*config, all.take(i as int)),
            decreases subscribers@.len() - i,
        {
            proof {
                assert(all.take(i + 1).drop_last() =~= all.take(i as int));
                assert(all.take(i + 1).last() == subscribers@[i as int].0@);
            }
            let limit: usize = config.policy_for(subscribers[i].0.as_slice()).deferred_queue_limit;
            limits.insert(copied(subscribers[i].0.as_slice()), limit);
            i += 1;
        }
        assert(all.take(all.len() as int) =~= all);
        FanoutPlan { subscribers, deferred_limits: limits }
    }

    /// How many blobs may wait for a subscriber: none for one that the plan
    /// does not know.
    pub fn limit_for(&self, subscriber_hash: &[u8]) -> (r: usize)
        requires
            self.deferred_limits.wf(),
        ensures
            r == (if has_key(self.deferred_limits@, subscriber_hash@) {
                value_of(self.deferred_limits@, subscriber_hash@)
            } else {
                0
            }),
    {
        match self.deferred_limits.get(subscriber_hash) {
            Some(n) => *n,
            None => 0,
        }
    }
}

/// How the delivery to a subscriber ends, by what is there. Where the node that
/// owns the subscription can be reached, nothing is sent from here. Otherwise the
/// link of the session comes first, then the streams, and then a packet, for which
/// the identity and a path have to be known; the subscriber is handed off where
/// none of these delivers, and only then.
pub proof fn law_how_a_delivery_ends(c: Circumstances)
    ensures
        ({
            let end = stage_after(c, 6);
            let by_link = c.has_session && c.link.sent > 0;
            let by_stream = c.stream.sent > 0;
            let packet = c.recalled && c.path_known;
            let out = c.sending == Sending::Sent;
            &&& end == Stage::Suppressed <==> c.owner_reachable
            &&& end == Stage::Pushed <==> !c.owner_reachable && by_link
            &&& end == Stage::Streamed <==> !c.owner_reachable && !by_link && by_stream
            &&& end == Stage::Sent <==> !c.owner_reachable && !by_link && !by_stream && packet && out
            &&& end == Stage::HandOffAndRequestPath <==> !c.owner_reachable && !by_link && !by_stream && packet
                && c.sending == Sending::NoInterface
            &&& (end == Stage::HandOff || end == Stage::HandOffAndRequestPath) <==> !c.owner_reachable && !by_link
                && !by_stream && !(packet && out)
            &&& is_delivered(end) <==> !c.owner_reachable && (by_link || by_stream || (packet && out))
            &&& is_handed_off(end) <==> !c.owner_reachable && !is_delivered(end)
            &&& is_final(end)
        }),
{
    law_routes_are_tried_in_order(c);
}

/// The number of subscribers that were handed off, counted one by one.
pub proof fn law_handed_off_are_counted(stages: Seq<Stage>, test: spec_fn(Stage) -> bool)
    requires
        forall|s: Stage| #[trigger] test(s) <==> s == Stage::HandOff || s == Stage::HandOffAndRequestPath,
    ensures
        handed_off_of(stages) == stages.filter(test).len(),
    decreases stages.len(),
{
    reveal(Seq::filter);
    if stages.len() > 0 {
        law_handed_off_are_counted(stages.drop_last(), test);
    }
}

/// As much waits for a subscriber as its tier lets: that of the privileged ones
/// where it is listed among them.
pub proof fn law_how_much_may_wait(config: NodeConfig, subscribers: Seq<Seq<u8>>, sub: Seq<u8>, vip: bool, i: int)
    requires
        vip <==> exists|k: int|
            0 <= k < config.vip_subscribers@.len() && (#[trigger] config.vip_subscribers@[k])@ == sub,
        subscribers.contains(sub),
        0 <= i < limits_of(config, subscribers).len(),
        limits_of(config, subscribers)[i].0 == sub,
    ensures
        limits_of(config, subscribers)[i].1 == (if vip {
            config.vip_policy.deferred_queue_limit
        } else {
            config.default_policy.deferred_queue_limit
        }),
{
    law_limits_follow_tiers(config, subscribers, sub);
    crate::config::law_tier_of(config, sub, vip);
}

/// The subscribers of a list with their owners are listed one for one.
pub proof fn law_subscribers_one_for_one(list: Seq<(Seq<u8>, Option<Seq<u8>>)>)
    ensures
        firsts(list).len() == list.len(),
        forall|i: int| 0 <= i < list.len() ==> #[trigger] firsts(list)[i] == list[i].0,
{
}

/// A blob goes to the subscribers of its channel, each with the owner it is held
/// for, and as much of it waits for each as their tier lets.
pub proof fn law_plan_of_a_fanout(
    table: &SubscriptionTable,
    config: &NodeConfig,
    channel: &[u8],
    plan: FanoutPlan,
    sub: &[u8],
    limit: usize,
    vip: bool,
)
    requires
        call_ensures(FanoutPlan::build, (table, config, channel), plan),
        call_ensures(FanoutPlan::limit_for, (&plan, sub), limit),
        vip <==> exists|k: int|
            0 <= k < config.vip_subscribers@.len() && (#[trigger] config.vip_subscribers@[k])@ == sub@,
        exists|i: int|
            0 <= i < table@.len() && (#[trigger] table@[i]).subscriber == sub@ && table@[i].channel == channel@,
    ensures
        limit == (if vip {
            config.vip_policy.deferred_queue_limit
        } else {
            config.default_policy.deferred_queue_limit
        }),
        exists|i: int| 0 <= i < plan.subscribers@.len() && (#[trigger] plan.subscribers@[i]).0@ == sub@,
{
    let subs = table@.filter(to_channel(channel@));
    let list = owned_views(plan.subscribers@);
    crate::octets::lemma_filter_holds(table@, to_channel(channel@));
    let i = choose|i: int|
        0 <= i < table@.len() && (#[trigger] table@[i]).subscriber == sub@ && table@[i].channel == channel@;
    assert(table@.contains(table@[i]));
    assert(subs.contains(table@[i]));
    let j = subs.index_of(table@[i]);
    assert(list[j].0 == sub@);
    assert(firsts(list)[j] == sub@);
    assert(plan.subscribers@[j].0@ == sub@);
    law_limits_follow_tiers(*config, firsts(list), sub@);
    crate::config::law_tier_of(*config, sub@, vip);
    let limits = limits_of(*config, firsts(list));
    let m = choose|m: int| 0 <= m < limits.len() && (#[trigger] limits[m]).0 == sub@;
    assert(limits[m].1 == config.spec_policy_for(sub@).deferred_queue_limit);
}

} // verus!
