//! Links that a client has bound for push, and which of them want a push.
use vstd::prelude::*;
use crate::id_map::{
    distinct, has_key, keys_of, not_among, not_under, put, value_of, without, without_all, IdMap,
};
use crate::msgpack::{bool_read, msgpack_read, msgpack_write, read_bool, write_value, Item, Packed};
use crate::octets::{
    copied, copied_list, copied_opt, holds, in_byte_order, insert_in_order, is_some_of, lemma_filter_agree, lemma_filter_ends,
    lemma_filter_holds, lemma_filter_mapped, lemma_filter_step, opt_view, same_bytes, views,
};
use crate::sessions::{gone_links, sent_count, settle_pushes, LinkPush};
use crate::stream_registry::StreamDispatchResult;

pub mod paths;

verus! {

/// Whether a link bound to a subscriber and a set of channels wants a push on
/// a channel. A link with no subscriber bound wants none, and an empty set of
/// channels lets none through.
pub fn wants_channel(
    bound_subscriber: Option<&[u8]>,
    bound_channels: &[Vec<u8>],
    subscriber_hash: &[u8],
    channel_hash: &[u8],
) -> (r: bool)
    ensures
        r == (bound_subscriber is Some && bound_subscriber->0@ == subscriber_hash@ && views(
            bound_channels@,
        ).contains(channel_hash@)),
{
    match bound_subscriber {
        Some(s) => same_bytes(s, subscriber_hash) && holds(bound_channels, channel_hash),
        None => false,
    }
}

/// Takes out every session other than `keep` that `predicate` holds of, and
/// returns their ids in order.
pub fn evict_others<S, F: Fn(&S) -> bool>(sessions: &mut IdMap<S>, keep: &[u8], predicate: F) -> (r: Vec<Vec<u8>>)
    requires
        old(sessions).wf(),
        forall|s: &S| predicate.requires((s,)),
    ensures
        final(sessions).wf(),
        in_byte_order(views(r@)),
        forall|x: Seq<u8>| #[trigger] views(r@).contains(x) ==> x != keep@ && has_key(
            old(sessions)@,
            x,
        ),
        forall|i: int| 0 <= i < old(sessions)@.len() ==> {
            let e = #[trigger] old(sessions)@[i];
            if views(r@).contains(e.0) {
                predicate.ensures((&e.1,), true)
            } else {
                e.0 == keep@ || predicate.ensures((&e.1,), false)
            }
        },
        final(sessions)@ == without_all(old(sessions)@, views(r@)),
{
    let mut evicted: Vec<Vec<u8>> = Vec::new();
    proof {
        sessions.lemma_distinct();
    }
    let ghost all = sessions@;
    {
        let pairs: Vec<(&Vec<u8>, &S)> = sessions.pairs();
        let mut i: usize = 0;
        while i < pairs.len()
            invariant
                0 <= i <= pairs@.len(),
                distinct(all),
                pairs@.len() == all.len(),
                forall|j: int| 0 <= j < pairs@.len() ==> (#[trigger] pairs@[j]).0@ == all[j].0 && *pairs@[j].1 == all[j].1,
                forall|s: &S| predicate.requires((s,)),
                in_byte_order(views(evicted@)),
                forall|x: Seq<u8>| #[trigger] views(evicted@).contains(x) ==> x != keep@ && exists|j: int|
                    0 <= j < i && (#[trigger] all[j]).0 == x,
                forall|j: int| 0 <= j < i ==> {
                    let e = #[trigger] all[j];
                    if views(evicted@).contains(e.0) {
                        predicate.ensures((&e.1,), true)
                    } else {
                        e.0 == keep@ || predicate.ensures((&e.1,), false)
                    }
                },
            decreases pairs@.len() - i,
        {
            let id: &Vec<u8> = pairs[i].0;
            let ghost before = views(evicted@);
            if !same_bytes(id.as_slice(), keep) && predicate(pairs[i].1) {
                insert_in_order(&mut evicted, copied(id.as_slice()));
            }
            proof {
                let after = views(evicted@);
                assert(!before.contains(all[i as int].0)) by {
                    if before.contains(all[i as int].0) {
                        let j = choose|j: int| 0 <= j < i && (#[trigger] all[j]).0 == all[i as int].0;
                        assert(all[j].0 != all[i as int].0);
                    }
                }
                assert forall|j: int| 0 <= j < i + 1 implies {
                    let e = #[trigger] all[j];
                    if after.contains(e.0) {
                        predicate.ensures((&e.1,), true)
                    } else {
                        e.0 == keep@ || predicate.ensures((&e.1,), false)
                    }
                } by {
                    if j < i {
                        assert(all[j].0 != all[i as int].0);
                    }
                }
            }
            i += 1;
        }
    }
    sessions.remove_all(&evicted);
    evicted
}

/// A client's link and what it has asked to be pushed on it.
pub struct LinkSession {
    /// The subscriber whose channels are pushed.
    pub subscriber_hash: Option<Vec<u8>>,
    /// The channels that are pushed.
    pub channel_hashes: Vec<Vec<u8>>,
    /// The destination whose messages are pushed.
    pub delivery_hash: Option<Vec<u8>>,
}

/// What a [`LinkSession`] holds.
pub struct SessionView {
    pub subscriber: Option<Seq<u8>>,
    pub channels: Seq<Seq<u8>>,
    pub delivery: Option<Seq<u8>>,
}

impl View for LinkSession {
    type V = SessionView;

    open spec fn view(&self) -> SessionView {
        SessionView {
            subscriber: opt_view(self.subscriber_hash),
            channels: views(self.channel_hashes@),
            delivery: opt_view(self.delivery_hash),
        }
    }
}

/// A session with its link.
pub open spec fn bound_view() -> spec_fn((Seq<u8>, LinkSession)) -> (Seq<u8>, SessionView) {
    |e: (Seq<u8>, LinkSession)| (e.0, e.1@)
}

/// What the sessions of a list hold.
pub open spec fn session_views(entries: Seq<(Seq<u8>, LinkSession)>) -> Seq<(Seq<u8>, SessionView)> {
    entries.map_values(bound_view())
}

/// The test that a session is not replaced when a subscriber binds a link.
pub open spec fn keeps_subscriber(link_id: Seq<u8>, subscriber: Seq<u8>) -> spec_fn((Seq<u8>, SessionView)) -> bool {
    |e: (Seq<u8>, SessionView)| e.0 == link_id || e.1.subscriber != Some(subscriber)
}

/// The test that a session is not replaced when a destination binds a link.
pub open spec fn keeps_delivery(link_id: Seq<u8>, delivery: Seq<u8>) -> spec_fn((Seq<u8>, SessionView)) -> bool {
    |e: (Seq<u8>, SessionView)| e.0 == link_id || e.1.delivery != Some(delivery)
}

/// Whether a session wants a push of a channel to a subscriber.
pub open spec fn session_wants(s: SessionView, subscriber: Seq<u8>, channel: Seq<u8>) -> bool {
    s.subscriber == Some(subscriber) && s.channels.contains(channel)
}

/// The test that a session wants a push of a channel to a subscriber.
pub open spec fn wants(subscriber: Seq<u8>, channel: Seq<u8>) -> spec_fn((Seq<u8>, SessionView)) -> bool {
    |e: (Seq<u8>, SessionView)| session_wants(e.1, subscriber, channel)
}

/// The test that a session is bound to a destination.
pub open spec fn delivers_to(delivery: Seq<u8>) -> spec_fn((Seq<u8>, SessionView)) -> bool {
    |e: (Seq<u8>, SessionView)| e.1.delivery == Some(delivery)
}

/// The session of a link, and one with nothing bound where there is none.
pub open spec fn session_of(sessions: Seq<(Seq<u8>, SessionView)>, link_id: Seq<u8>) -> SessionView {
    if has_key(sessions, link_id) {
        value_of(sessions, link_id)
    } else {
        SessionView { subscriber: None, channels: Seq::empty(), delivery: None }
    }
}

/// The links that have bound themselves for push.
pub struct LinkSessionRegistry {
    sessions: IdMap<LinkSession>,
}

/// Mapping the values of entries changes neither their keys nor their places.
proof fn lemma_session_views(entries: Seq<(Seq<u8>, LinkSession)>, id: Seq<u8>)
    requires
        distinct(entries),
    ensures
        distinct(session_views(entries)),
        has_key(session_views(entries), id) == has_key(entries, id),
        keys_of(session_views(entries)) == keys_of(entries),
        has_key(entries, id) ==> value_of(session_views(entries), id) == value_of(entries, id)@,
        forall|s: LinkSession| #[trigger] session_views(put(entries, id, s)) == put(session_views(entries), id, s@),
{
    let mapped = session_views(entries);
    assert forall|i: int, j: int| 0 <= i < j < mapped.len() implies (#[trigger] mapped[i]).0 != (#[trigger] mapped[j]).0 by {
        assert(entries[i].0 != entries[j].0);
    }
    assert(keys_of(mapped) =~= keys_of(entries));
    if has_key(entries, id) {
        let i = choose|i: int| 0 <= i < entries.len() && (#[trigger] entries[i]).0 == id;
        assert(mapped[i].0 == id);
        assert(mapped.contains(mapped[i]));
        crate::id_map::lemma_value_of(mapped, id, entries[i].1@);
    }
    if has_key(mapped, id) {
        let i = choose|i: int| 0 <= i < mapped.len() && (#[trigger] mapped[i]).0 == id;
        assert(entries[i].0 == id);
    }
    assert forall|s: LinkSession| #[trigger] session_views(put(entries, id, s)) == put(mapped, id, s@) by {
        assert(session_views(put(entries, id, s)) =~= put(mapped, id, s@));
    }
}

impl LinkSessionRegistry {
    /// The sessions by their links, in the order in which they were bound.
    pub closed spec fn view(&self) -> Seq<(Seq<u8>, SessionView)> {
        session_views(self.sessions@)
    }

    /// What holds of every registry that this module hands out.
    pub closed spec fn wf(&self) -> bool {
        self.sessions.wf()
    }

    /// A registry without sessions.
    pub fn new() -> (r: Self)
        ensures
            r.wf(),
            r@ == Seq::<(Seq<u8>, SessionView)>::empty(),
    {
        let r: LinkSessionRegistry = LinkSessionRegistry { sessions: IdMap::new() };
        assert(r@ =~= Seq::<(Seq<u8>, SessionView)>::empty());
        r
    }

    /// Binds a link for the pushes of a subscriber's channels, in the place of
    /// what was bound on it, and of every other link of the subscriber. Returns
    /// the links that were replaced.
    pub fn configure_channels(&mut self, link_id: &[u8], subscriber_hash: Vec<u8>, channel_hashes: Vec<Vec<u8>>) -> (r: Vec<
        Vec<u8>,
    >)
        requires
            old(self).wf(),
        ensures
            final(self).wf(),
            in_byte_order(views(r@)),
            forall|x: Seq<u8>| #[trigger]
                views(r@).contains(x) <==> has_key(old(self)@, x) && x != link_id@ && value_of(old(self)@, x).subscriber
                    == Some(subscriber_hash@),
            ({
                let kept = old(self)@.filter(keeps_subscriber(link_id@, subscriber_hash@));
                final(self)@ == put(
                    kept,
                    link_id@,
                    SessionView {
                        subscriber: Some(subscriber_hash@),
                        channels: views(channel_hashes@),
                        delivery: session_of(kept, link_id@).delivery,
                    },
                )
            }),
    {
        let ghost before = self.sessions@;
        proof {
            self.sessions.lemma_distinct();
        }
        let wanted = |s: &LinkSession| -> (b: bool)
            ensures
                b == (s@.subscriber == Some(subscriber_hash@)),
            { is_some_of(&s.subscriber_hash, subscriber_hash.as_slice()) };
        let replaced: Vec<Vec<u8>> = evict_others(&mut self.sessions, link_id, wanted);
        let ghost kept = self.sessions@;
        proof {
            lemma_evicted(
                before,
                views(replaced@),
                link_id@,
                keeps_subscriber(link_id@, subscriber_hash@),
            );
            self.sessions.lemma_distinct();
            lemma_session_views(kept, link_id@);
            assert forall|x: Seq<u8>| #[trigger]
                views(replaced@).contains(x) <==> has_key(session_views(before), x) && x != link_id@ && value_of(
                    session_views(before),
                    x,
                ).subscriber == Some(subscriber_hash@) by {
                lemma_session_views(before, x);
                if has_key(before, x) {
                    let i = choose|i: int| 0 <= i < before.len() && (#[trigger] before[i]).0 == x;
                    assert(before.contains((x, before[i].1)));
                    crate::id_map::lemma_value_of(before, x, before[i].1);
                }
            }
        }
        let delivery_hash: Option<Vec<u8>> = match self.sessions.get(link_id) {
            Some(s) => copied_opt(&s.delivery_hash),
            None => None,
        };
        let session: LinkSession = LinkSession {
            subscriber_hash: Some(subscriber_hash),
            channel_hashes,
            delivery_hash,
        };
        self.sessions.insert(copied(link_id), session);
        replaced
    }

    /// Binds a link for the pushes of a destination's messages, in the place of
    /// every other link of the destination. Returns the links that were
    /// replaced.
    pub fn configure_delivery(&mut self, link_id: &[u8], delivery_hash: Vec<u8>) -> (r: Vec<Vec<u8>>)
        requires
            old(self).wf(),
        ensures
            final(self).wf(),
            in_byte_order(views(r@)),
            forall|x: Seq<u8>| #[trigger]
                views(r@).contains(x) <==> has_key(old(self)@, x) && x != link_id@ && value_of(old(self)@, x).delivery
                    == Some(delivery_hash@),
            ({
                let kept = old(self)@.filter(keeps_delivery(link_id@, delivery_hash@));
                final(self)@ == put(
                    kept,
                    link_id@,
                    SessionView { delivery: Some(delivery_hash@), ..session_of(kept, link_id@) },
                )
            }),
    {
        let ghost before = self.sessions@;
        proof {
            self.sessions.lemma_distinct();
        }
        let wanted = |s: &LinkSession| -> (b: bool)
            ensures
                b == (s@.delivery == Some(delivery_hash@)),
            { is_some_of(&s.delivery_hash, delivery_hash.as_slice()) };
        let replaced: Vec<Vec<u8>> = evict_others(&mut self.sessions, link_id, wanted);
        let ghost kept = self.sessions@;
        proof {
            lemma_evicted(before, views(replaced@), link_id@, keeps_delivery(link_id@, delivery_hash@));
            self.sessions.lemma_distinct();
            lemma_session_views(kept, link_id@);
            assert forall|x: Seq<u8>| #[trigger]
                views(replaced@).contains(x) <==> has_key(session_views(before), x) && x != link_id@ && value_of(
                    session_views(before),
                    x,
                ).delivery == Some(delivery_hash@) by {
                lemma_session_views(before, x);
                if has_key(before, x) {
                    let i = choose|i: int| 0 <= i < before.len() && (#[trigger] before[i]).0 == x;
                    assert(before.contains((x, before[i].1)));
                    crate::id_map::lemma_value_of(before, x, before[i].1);
                }
            }
        }
        let (subscriber_hash, channel_hashes): (Option<Vec<u8>>, Vec<Vec<u8>>) = match self.sessions.get(link_id) {
            Some(s) => (copied_opt(&s.subscriber_hash), copied_list(&s.channel_hashes)),
            None => (None, Vec::new()),
        };
        let session: LinkSession = LinkSession {
            subscriber_hash,
            channel_hashes,
            delivery_hash: Some(delivery_hash),
        };
        proof {
            if !has_key(kept, link_id@) {
                assert(session@.channels =~= Seq::empty());
            }
        }
        self.sessions.insert(copied(link_id), session);
        replaced
    }

    /// Drops the session of a link. Says whether there was one.
    pub fn remove(&mut self, link_id: &[u8]) -> (r: bool)
        requires
            old(self).wf(),
        ensures
            final(self).wf(),
            r == has_key(old(self)@, link_id@),
            final(self)@ == without(old(self)@, link_id@),
    {
        let ghost before = self.sessions@;
        proof {
            self.sessions.lemma_distinct();
            lemma_session_views(before, link_id@);
            lemma_filter_mapped(
                before,
                bound_view(),
                not_under::<LinkSession>(link_id@),
                not_under::<SessionView>(link_id@),
            );
        }
        self.sessions.remove(link_id).is_some()
    }

    /// Whether any link of a subscriber is bound for a channel.
    pub fn has_channel_session(&self, subscriber_hash: &[u8], channel_hash: &[u8]) -> (r: bool)
        requires
            self.wf(),
        ensures
            r == (self@.filter(wants(subscriber_hash@, channel_hash@)).len() > 0),
    {
        let ids: Vec<Vec<u8>> = self.channel_links(subscriber_hash, channel_hash);
        assert(views(ids@).len() == ids@.len());
        ids.len() > 0
    }

    /// The links on which a push of a channel to a subscriber goes out.
    pub fn channel_links(&self, subscriber_hash: &[u8], channel_hash: &[u8]) -> (r: Vec<Vec<u8>>)
        requires
            self.wf(),
        ensures
            views(r@) == keys_of(self@.filter(wants(subscriber_hash@, channel_hash@))),
    {
        let ghost all = self@;
        let ghost test = wants(subscriber_hash@, channel_hash@);
        let pairs: Vec<(&Vec<u8>, &LinkSession)> = self.sessions.pairs();
        let mut out: Vec<Vec<u8>> = Vec::new();
        let mut i: usize = 0;
        proof {
            lemma_filter_ends(all, test);
            assert(views(out@) =~= keys_of(all.take(0).filter(test)));
        }
        while i < pairs.len()
            invariant
                0 <= i <= pairs@.len(),
                test == wants(subscriber_hash@, channel_hash@),
                pairs@.len() == all.len(),
                forall|j: int|
                    0 <= j < pairs@.len() ==> (#[trigger] pairs@[j]).0@ == all[j].0 && pairs@[j].1@ == all[j].1,
                views(out@) == keys_of(all.take(i as int).filter(test)),
            decreases pairs@.len() - i,
        {
            let ghost found = all.take(i as int).filter(test);
            proof {
                lemma_filter_step(all, test, i as int);
            }
            let s: &LinkSession = pairs[i].1;
            let bound: Option<&[u8]> = match &s.subscriber_hash {
                Some(h) => Some(h.as_slice()),
                None => None,
            };
            if wants_channel(bound, s.channel_hashes.as_slice(), subscriber_hash, channel_hash) {
                let ghost was = views(out@);
                let id: Vec<u8> = copied(pairs[i].0.as_slice());
                out.push(id);
                assert(views(out@) =~= was.push(id@));
                assert(keys_of(found.push(all[i as int])) =~= keys_of(found).push(all[i as int].0));
            }
            i += 1;
        }
        proof {
            lemma_filter_ends(all, test);
        }
        out
    }

    /// The links on which a push to a destination goes out.
    pub fn delivery_links(&self, delivery_hash: &[u8]) -> (r: Vec<Vec<u8>>)
        requires
            self.wf(),
        ensures
            views(r@) == keys_of(self@.filter(delivers_to(delivery_hash@))),
    {
        let ghost all = self@;
        let ghost test = delivers_to(delivery_hash@);
        let pairs: Vec<(&Vec<u8>, &LinkSession)> = self.sessions.pairs();
        let mut out: Vec<Vec<u8>> = Vec::new();
        let mut i: usize = 0;
        proof {
            lemma_filter_ends(all, test);
            assert(views(out@) =~= keys_of(all.take(0).filter(test)));
        }
        while i < pairs.len()
            invariant
                0 <= i <= pairs@.len(),
                test == delivers_to(delivery_hash@),
                pairs@.len() == all.len(),
                forall|j: int|
                    0 <= j < pairs@.len() ==> (#[trigger] pairs@[j]).0@ == all[j].0 && pairs@[j].1@ == all[j].1,
                views(out@) == keys_of(all.take(i as int).filter(test)),
            decreases pairs@.len() - i,
        {
            let ghost found = all.take(i as int).filter(test);
            proof {
                lemma_filter_step(all, test, i as int);
            }
            if is_some_of(&pairs[i].1.delivery_hash, delivery_hash) {
                let ghost was = views(out@);
                let id: Vec<u8> = copied(pairs[i].0.as_slice());
                out.push(id);
                assert(views(out@) =~= was.push(id@));
                assert(keys_of(found.push(all[i as int])) =~= keys_of(found).push(all[i as int].0));
            }
            i += 1;
        }
        proof {
            lemma_filter_ends(all, test);
        }
        out
    }

    /// Takes in what became of a push on each link: sessions whose links are
    /// gone are dropped.
    pub fn dispatched(&mut self, reports: &Vec<(Vec<u8>, LinkPush)>) -> (r: StreamDispatchResult)
        requires
            old(self).wf(),
        ensures
            final(self).wf(),
            final(self)@ == without_all(old(self)@, gone_links(reports@)),
            r.matched == reports@.len(),
            r.sent == sent_count(reports@),
    {
        proof {
            lemma_filter_mapped(
                self.sessions@,
                bound_view(),
                not_among::<LinkSession>(gone_links(reports@)),
                not_among::<SessionView>(gone_links(reports@)),
            );
        }
        settle_pushes(&mut self.sessions, reports)
    }
}

/// What evicting leaves, seen through the sessions' contents.
proof fn lemma_evicted(
    before: Seq<(Seq<u8>, LinkSession)>,
    gone: Seq<Seq<u8>>,
    link_id: Seq<u8>,
    keep: spec_fn((Seq<u8>, SessionView)) -> bool,
)
    requires
        forall|i: int| 0 <= i < before.len() ==> gone.contains((#[trigger] before[i]).0) == !keep(
            (before[i].0, before[i].1@),
        ),
    ensures
        session_views(without_all(before, gone)) == session_views(before).filter(keep),
{
    let raw = |e: (Seq<u8>, LinkSession)| keep((e.0, e.1@));
    lemma_filter_agree(before, not_among::<LinkSession>(gone), raw);
    lemma_filter_mapped(before, bound_view(), raw, keep);
}

/// A subscriber has one link: once it binds one, every push of its channels
/// goes out on that link and on no other.
pub proof fn law_one_link_per_subscriber(
    sessions: Seq<(Seq<u8>, SessionView)>,
    link_id: Seq<u8>,
    subscriber: Seq<u8>,
    channels: Seq<Seq<u8>>,
    channel: Seq<u8>,
)
    requires
        distinct(sessions),
    ensures
        ({
            let kept = sessions.filter(keeps_subscriber(link_id, subscriber));
            let after = put(
                kept,
                link_id,
                SessionView {
                    subscriber: Some(subscriber),
                    channels,
                    delivery: session_of(kept, link_id).delivery,
                },
            );
            forall|i: int|
                0 <= i < after.len() && session_wants((#[trigger] after[i]).1, subscriber, channel) ==> after[i].0
                    == link_id && channels.contains(channel)
        }),
{
    let keep = keeps_subscriber(link_id, subscriber);
    let kept = sessions.filter(keep);
    lemma_filter_holds(sessions, keep);
    let new = SessionView {
        subscriber: Some(subscriber),
        channels,
        delivery: session_of(kept, link_id).delivery,
    };
    let after = put(kept, link_id, new);
    assert forall|i: int|
        0 <= i < after.len() && session_wants((#[trigger] after[i]).1, subscriber, channel) implies after[i].0
        == link_id && channels.contains(channel) by {
        if after[i] != (link_id, new) {
            assert(after[i] == kept[i]);
            assert(kept.contains(kept[i]));
            assert(keep(kept[i]));
        }
    }
}

/// The data of a push request: the payload as one byte string.
pub fn push_data(payload: &[u8]) -> (r: Vec<u8>)
    ensures
        r@ == msgpack_write(Packed::Binary(payload@)),
        payload@.len() <= u32::MAX ==> msgpack_read(r@) == Some(Packed::Binary(payload@)),
{
    broadcast use crate::msgpack::group_item_views;

    write_value(Item::Binary(copied(payload)))
}

/// Whether a client's answer to a push says that it has the payload.
pub fn push_acknowledged(response: Option<&[u8]>) -> (r: bool)
    ensures
        r == (match response {
            Some(bytes) => bool_read(bytes@) == Some(true),
            None => false,
        }),
{
    match response {
        Some(bytes) => match read_bool(bytes) {
            Some(b) => b,
            None => false,
        },
        None => false,
    }
}

/// A link that a subscriber, or a hash for messages, is bound to ends its
/// binding to other links, and touches no other link.
pub proof fn law_binding_ends_the_others(
    sessions: Seq<(Seq<u8>, SessionView)>,
    link_id: Seq<u8>,
    subscriber: Seq<u8>,
    e: (Seq<u8>, SessionView),
)
    ensures
        sessions.filter(keeps_subscriber(link_id, subscriber)).contains(e) <==> sessions.contains(e) && (e.0 == link_id
            || e.1.subscriber is None || e.1.subscriber->0 != subscriber),
        sessions.filter(keeps_delivery(link_id, subscriber)).contains(e) <==> sessions.contains(e) && (e.0 == link_id
            || e.1.delivery is None || e.1.delivery->0 != subscriber),
{
    lemma_filter_holds(sessions, keeps_subscriber(link_id, subscriber));
    lemma_filter_holds(sessions, keeps_delivery(link_id, subscriber));
}

/// A blob is pushed on the links that its subscriber is bound to with its
/// channel, and a message on those that its hash is bound to.
pub proof fn law_where_a_push_goes(
    sessions: Seq<(Seq<u8>, SessionView)>,
    subscriber: Seq<u8>,
    channel: Seq<u8>,
    e: (Seq<u8>, SessionView),
)
    ensures
        sessions.filter(wants(subscriber, channel)).contains(e) <==> sessions.contains(e) && e.1.subscriber is Some
            && e.1.subscriber->0 == subscriber && e.1.channels.contains(channel),
        sessions.filter(delivers_to(subscriber)).contains(e) <==> sessions.contains(e) && e.1.delivery is Some
            && e.1.delivery->0 == subscriber,
{
    lemma_filter_holds(sessions, wants(subscriber, channel));
    lemma_filter_holds(sessions, delivers_to(subscriber));
}

/// What a link is bound to is what was put down for it, and nothing where
/// nothing was.
pub proof fn law_binding_of_a_link(sessions: Seq<(Seq<u8>, SessionView)>, k: int, other: Seq<u8>)
    requires
        distinct(sessions),
        0 <= k < sessions.len(),
        forall|i: int| 0 <= i < sessions.len() ==> (#[trigger] sessions[i]).0 != other,
    ensures
        session_of(sessions, sessions[k].0) == sessions[k].1,
        session_of(sessions, other).subscriber is None,
        session_of(sessions, other).channels.len() == 0,
        session_of(sessions, other).delivery is None,
{
    crate::id_map::law_value_is_found(sessions, k);
    assert(has_key(sessions, sessions[k].0));
}

} // verus!
