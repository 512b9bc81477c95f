//! Live pushes over stream links, and what makes one delivered: the proof of
//! its packet.
use vstd::prelude::*;
use crate::id_map::{has_key, keys_of, not_among, not_under, put, without, without_all, IdMap};
use crate::link_session::evict_others;
use crate::octets::{
    copied, holds, lemma_filter_agree, lemma_filter_ends, lemma_filter_holds, lemma_filter_mapped, lemma_filter_step,
    same_bytes, views,
};
use crate::sessions::{gone_links, sent_count, settle_pushes, LinkPush};

verus! {

/// How many links a push matched, and on how many it went out.
#[derive(Debug, Clone, Copy, PartialEq, Eq, Structural)]
pub struct StreamDispatchResult {
    pub matched: usize,
    pub sent: usize,
}

impl Default for StreamDispatchResult {
    fn default() -> (r: Self)
        ensures
            r == (StreamDispatchResult { matched: 0, sent: 0 }),
    {
        StreamDispatchResult { matched: 0, sent: 0 }
    }
}

impl StreamDispatchResult {
    /// Whether any session wanted the push.
    pub fn had_sessions(&self) -> (r: bool)
        ensures
            r == (self.matched > 0),
    {
        self.matched > 0
    }

    /// Whether the push is on the wire on at least one link.
    pub fn delivered(&self) -> (r: bool)
        ensures
            r == (self.sent > 0),
    {
        self.sent > 0
    }
}

/// One push across the links of a session.
///
/// It is delivered as soon as one link's receipt is proved, and unproven once
/// every receipt has concluded without a proof. Besides the receipts, the
/// dispatch itself keeps the push open until it has tried every link.
#[derive(Debug, Clone, Copy, PartialEq, Eq, Structural)]
pub struct PushOutcome {
    pending: usize,
    any_sent: bool,
    proved: bool,
    handed_off: bool,
}

/// Something that happens to a push.
pub enum PushEvent {
    /// A link took the packet, and a receipt is out for it.
    Receipt,
    /// A link proved its packet.
    Proved,
    /// A receipt timed out.
    TimedOut,
    /// Every matching link has been tried.
    DispatchDone,
}

/// What is known of a push.
pub struct PushState {
    pub pending: int,
    pub any_sent: bool,
    pub proved: bool,
    pub handed_off: bool,
}

/// A push at its start.
pub open spec fn push_start() -> PushState {
    PushState { pending: 1, any_sent: false, proved: false, handed_off: false }
}

/// A push after one of the things that keep it open has concluded: it is
/// handed off if that was the last, something was sent, and nothing proved.
pub open spec fn push_conclude(s: PushState) -> PushState {
    PushState {
        pending: s.pending - 1,
        handed_off: s.handed_off || (s.pending == 1 && s.any_sent && !s.proved),
        ..s
    }
}

/// A push after an event.
pub open spec fn push_step(s: PushState, e: PushEvent) -> PushState {
    match e {
        PushEvent::Receipt => PushState { pending: s.pending + 1, any_sent: true, ..s },
        PushEvent::Proved => push_conclude(PushState { proved: true, ..s }),
        PushEvent::TimedOut => push_conclude(s),
        PushEvent::DispatchDone => push_conclude(s),
    }
}

/// A push after a series of events.
pub open spec fn push_run(events: Seq<PushEvent>) -> PushState
    decreases events.len(),
{
    if events.len() == 0 {
        push_start()
    } else {
        push_step(push_run(events.drop_last()), events.last())
    }
}

/// Whether a link has proved its packet.
pub open spec fn any_proof(events: Seq<PushEvent>) -> bool {
    exists|i: int| 0 <= i < events.len() && (#[trigger] events[i]) is Proved
}

/// Whether some link took the packet.
pub open spec fn any_receipt(events: Seq<PushEvent>) -> bool {
    exists|i: int| 0 <= i < events.len() && (#[trigger] events[i]) is Receipt
}

/// Whether a series of events can happen to one push: receipts come only while
/// the dispatch goes on, which ends once, and a receipt concludes at most once.
pub open spec fn push_possible(events: Seq<PushEvent>) -> bool
    decreases events.len(),
{
    if events.len() == 0 {
        true
    } else {
        let before = events.drop_last();
        push_possible(before) && match events.last() {
            PushEvent::Receipt => !dispatch_ended(before),
            PushEvent::DispatchDone => !dispatch_ended(before),
            _ => push_run(before).pending > (if dispatch_ended(before) {
                0int
            } else {
                1int
            }),
        }
    }
}

/// Whether the dispatch has tried every link.
pub open spec fn dispatch_ended(events: Seq<PushEvent>) -> bool {
    exists|i: int| 0 <= i < events.len() && (#[trigger] events[i]) is DispatchDone
}

/// A push is handed to the next route exactly when the dispatch is over, every
/// receipt has concluded, some link took the packet, and no link proved it.
pub proof fn law_push_verdict(events: Seq<PushEvent>)
    requires
        push_possible(events),
    ensures
        push_run(events).pending >= (if dispatch_ended(events) {
            0int
        } else {
            1int
        }),
        push_run(events).proved == any_proof(events),
        push_run(events).any_sent == any_receipt(events),
        push_run(events).handed_off <==> push_run(events).pending == 0 && any_receipt(events)
            && !any_proof(events),
    decreases events.len(),
{
    if events.len() > 0 {
        let before = events.drop_last();
        law_push_verdict(before);
        let e = events.last();
        let n = events.len() - 1;
        assert forall|i: int| 0 <= i < n implies #[trigger] events[i] == before[i] by {}
        assert(any_proof(events) <==> any_proof(before) || e is Proved) by {
            if any_proof(before) {
                let i = choose|i: int| 0 <= i < before.len() && (#[trigger] before[i]) is Proved;
                assert(events[i] is Proved);
            }
            if any_proof(events) {
                let i = choose|i: int| 0 <= i < events.len() && (#[trigger] events[i]) is Proved;
                if i < n {
                    assert(before[i] is Proved);
                }
            }
            if e is Proved {
                assert(events[n] is Proved);
            }
        }
        assert(any_receipt(events) <==> any_receipt(before) || e is Receipt) by {
            if any_receipt(before) {
                let i = choose|i: int| 0 <= i < before.len() && (#[trigger] before[i]) is Receipt;
                assert(events[i] is Receipt);
            }
            if any_receipt(events) {
                let i = choose|i: int| 0 <= i < events.len() && (#[trigger] events[i]) is Receipt;
                if i < n {
                    assert(before[i] is Receipt);
                }
            }
            if e is Receipt {
                assert(events[n] is Receipt);
            }
        }
        assert(dispatch_ended(events) <==> dispatch_ended(before) || e is DispatchDone) by {
            if dispatch_ended(before) {
                let i = choose|i: int| 0 <= i < before.len() && (#[trigger] before[i]) is DispatchDone;
                assert(events[i] is DispatchDone);
            }
            if dispatch_ended(events) {
                let i = choose|i: int| 0 <= i < events.len() && (#[trigger] events[i]) is DispatchDone;
                if i < n {
                    assert(before[i] is DispatchDone);
                }
            }
            if e is DispatchDone {
                assert(events[n] is DispatchDone);
            }
        }
    }
}

/// Once a push is handed off nothing more happens to it, so it is handed off
/// only once.
pub proof fn law_push_hands_off_once(events: Seq<PushEvent>, next: PushEvent)
    requires
        push_possible(events),
        push_run(events).handed_off,
    ensures
        !push_possible(events.push(next)),
{
    law_push_verdict(events);
    assert(events.push(next).drop_last() =~= events);
    if !dispatch_ended(events) {
        assert(push_run(events).pending >= 1);
    }
}

impl PushOutcome {
    /// What is known of the push.
    pub closed spec fn view(&self) -> PushState {
        PushState {
            pending: self.pending as int,
            any_sent: self.any_sent,
            proved: self.proved,
            handed_off: self.handed_off,
        }
    }

    /// A push whose dispatch begins.
    pub fn new() -> (r: Self)
        ensures
            r@ == push_start(),
    {
        PushOutcome { pending: 1, any_sent: false, proved: false, handed_off: false }
    }

    /// A receipt was obtained on one link.
    pub fn receipt_pending(&mut self)
        requires
            old(self)@.pending < usize::MAX,
        ensures
            final(self)@ == push_step(old(self)@, PushEvent::Receipt),
    {
        self.any_sent = true;
        self.pending = self.pending + 1;
    }

    /// A link proved its packet. Says whether the push is now handed off.
    pub fn proved(&mut self) -> (r: bool)
        requires
            old(self)@.pending > 0,
        ensures
            final(self)@ == push_step(old(self)@, PushEvent::Proved),
            r == (final(self)@.handed_off && !old(self)@.handed_off),
    {
        self.proved = true;
        self.conclude_one()
    }

    /// A receipt timed out without a proof. Says whether the push is now
    /// handed off.
    pub fn timed_out(&mut self) -> (r: bool)
        requires
            old(self)@.pending > 0,
        ensures
            final(self)@ == push_step(old(self)@, PushEvent::TimedOut),
            r == (final(self)@.handed_off && !old(self)@.handed_off),
    {
        self.conclude_one()
    }

    /// Every matching link has been tried. Says whether the push is now handed
    /// off.
    pub fn dispatch_done(&mut self) -> (r: bool)
        requires
            old(self)@.pending > 0,
        ensures
            final(self)@ == push_step(old(self)@, PushEvent::DispatchDone),
            r == (final(self)@.handed_off && !old(self)@.handed_off),
    {
        self.conclude_one()
    }

    fn conclude_one(&mut self) -> (r: bool)
        requires
            old(self)@.pending > 0,
        ensures
            final(self)@ == push_conclude(old(self)@),
            r == (final(self)@.handed_off && !old(self)@.handed_off),
    {
        self.pending = self.pending - 1;
        if self.pending != 0 {
            return false;
        }
        if !self.any_sent || self.proved {
            return false;
        }
        let first: bool = !self.handed_off;
        self.handed_off = true;
        first
    }

    /// Whether a link has proved the push.
    pub fn is_proved(&self) -> (r: bool)
        ensures
            r == self@.proved,
    {
        self.proved
    }

    /// Whether the push was handed to the next route.
    pub fn was_handed_off(&self) -> (r: bool)
        ensures
            r == self@.handed_off,
    {
        self.handed_off
    }

    /// Whether the verdict is final.
    pub fn is_settled(&self) -> (r: bool)
        ensures
            r == (self@.pending == 0),
    {
        self.pending == 0
    }
}

/// A subscriber's stream link and the channels that are pushed on it.
pub struct ChannelStreamSession {
    pub subscriber_hash: Vec<u8>,
    pub channel_hashes: Vec<Vec<u8>>,
}

/// What a session of a channel stream holds.
pub struct ChannelStream {
    pub subscriber: Seq<u8>,
    pub channels: Seq<Seq<u8>>,
}

impl View for ChannelStreamSession {
    type V = ChannelStream;

    open spec fn view(&self) -> ChannelStream {
        ChannelStream { subscriber: self.subscriber_hash@, channels: views(self.channel_hashes@) }
    }
}

/// A stream session with its link.
pub open spec fn channel_stream_view() -> spec_fn((Seq<u8>, ChannelStreamSession)) -> (Seq<u8>, ChannelStream) {
    |e: (Seq<u8>, ChannelStreamSession)| (e.0, e.1@)
}

/// What the sessions of channel streams hold.
pub open spec fn channel_stream_views(entries: Seq<(Seq<u8>, ChannelStreamSession)>) -> Seq<(Seq<u8>, ChannelStream)> {
    entries.map_values(channel_stream_view())
}

/// The test that a session is not replaced when a subscriber opens a stream.
pub open spec fn keeps_stream_of(link_id: Seq<u8>, subscriber: Seq<u8>) -> spec_fn((Seq<u8>, ChannelStream)) -> bool {
    |e: (Seq<u8>, ChannelStream)| e.0 == link_id || e.1.subscriber != subscriber
}

/// The test that a session wants a push of a channel to a subscriber.
pub open spec fn streams_channel(subscriber: Seq<u8>, channel: Seq<u8>) -> spec_fn((Seq<u8>, ChannelStream)) -> bool {
    |e: (Seq<u8>, ChannelStream)| e.1.subscriber == subscriber && e.1.channels.contains(channel)
}

/// The stream links of subscribers.
pub struct ChannelStreamRegistry {
    sessions: IdMap<ChannelStreamSession>,
}

proof fn lemma_channel_streams(
    before: Seq<(Seq<u8>, ChannelStreamSession)>,
    gone: Seq<Seq<u8>>,
    keep: spec_fn((Seq<u8>, ChannelStream)) -> bool,
)
    requires
        forall|i: int| 0 <= i < before.len() ==> gone.contains((#[trigger] before[i]).0) == !keep(
            (before[i].0, before[i].1@),
        ),
    ensures
        channel_stream_views(without_all(before, gone)) == channel_stream_views(before).filter(keep),
{
    let raw = |e: (Seq<u8>, ChannelStreamSession)| keep((e.0, e.1@));
    lemma_filter_agree(before, not_among::<ChannelStreamSession>(gone), raw);
    lemma_filter_mapped(before, channel_stream_view(), raw, keep);
}

proof fn lemma_channel_put(entries: Seq<(Seq<u8>, ChannelStreamSession)>, id: Seq<u8>, s: ChannelStreamSession)
    ensures
        has_key(channel_stream_views(entries), id) == has_key(entries, id),
        channel_stream_views(put(entries, id, s)) == put(channel_stream_views(entries), id, s@),
{
    let mapped = channel_stream_views(entries);
    if has_key(entries, id) {
        let i = choose|i: int| 0 <= i < entries.len() && (#[trigger] entries[i]).0 == id;
        assert(mapped[i].0 == id);
    }
    if has_key(mapped, id) {
        let i = choose|i: int| 0 <= i < mapped.len() && (#[trigger] mapped[i]).0 == id;
        assert(entries[i].0 == id);
    }
    assert(channel_stream_views(put(entries, id, s)) =~= put(mapped, id, s@));
}

impl ChannelStreamRegistry {
    /// The sessions by their links, in the order in which they were opened.
    pub closed spec fn view(&self) -> Seq<(Seq<u8>, ChannelStream)> {
        channel_stream_views(self.sessions@)
    }

    /// What holds of every registry that this module hands out.
    pub closed spec fn wf(&self) -> bool {
        self.sessions.wf()
    }

    /// A registry without sessions.
    pub fn new() -> (r: Self)
        ensures
            r.wf(),
            r@ == Seq::<(Seq<u8>, ChannelStream)>::empty(),
    {
        let r: ChannelStreamRegistry = ChannelStreamRegistry { sessions: IdMap::new() };
        assert(r@ =~= Seq::<(Seq<u8>, ChannelStream)>::empty());
        r
    }

    /// Opens or reconfigures a subscriber's stream on a link, in the place of
    /// every other link of the subscriber.
    pub fn configure(&mut self, link_id: &[u8], subscriber_hash: Vec<u8>, channel_hashes: Vec<Vec<u8>>)
        requires
            old(self).wf(),
        ensures
            final(self).wf(),
            final(self)@ == put(
                old(self)@.filter(keeps_stream_of(link_id@, subscriber_hash@)),
                link_id@,
                ChannelStream { subscriber: subscriber_hash@, channels: views(channel_hashes@) },
            ),
    {
        let ghost before = self.sessions@;
        let mine = |s: &ChannelStreamSession| -> (b: bool)
            ensures
                b == (s@.subscriber == subscriber_hash@),
            { same_bytes(s.subscriber_hash.as_slice(), subscriber_hash.as_slice()) };
        let replaced: Vec<Vec<u8>> = evict_others(&mut self.sessions, link_id, mine);
        let session: ChannelStreamSession = ChannelStreamSession { subscriber_hash, channel_hashes };
        proof {
            lemma_channel_streams(before, views(replaced@), keeps_stream_of(link_id@, subscriber_hash@));
            lemma_channel_put(self.sessions@, link_id@, session);
        }
        self.sessions.insert(copied(link_id), session);
    }

    /// Drops the session of a link. Says whether there was one.
    pub fn remove(&mut self, link_id: &[u8]) -> (r: bool)
        requires
            old(self).wf(),
        ensures
            final(self).wf(),
            r == has_key(old(self)@, link_id@),
            final(self)@ == without(old(self)@, link_id@),
    {
        proof {
            lemma_filter_mapped(
                self.sessions@,
                channel_stream_view(),
                not_under::<ChannelStreamSession>(link_id@),
                not_under::<ChannelStream>(link_id@),
            );
            lemma_channel_put(self.sessions@, link_id@, arbitrary());
        }
        self.sessions.remove(link_id).is_some()
    }

    /// The links on which a push of a channel to a subscriber goes out.
    pub fn links(&self, subscriber_hash: &[u8], channel_hash: &[u8]) -> (r: Vec<Vec<u8>>)
        ensures
            views(r@) == keys_of(self@.filter(streams_channel(subscriber_hash@, channel_hash@))),
    {
        let ghost all = self@;
        let ghost test = streams_channel(subscriber_hash@, channel_hash@);
        let pairs: Vec<(&Vec<u8>, &ChannelStreamSession)> = self.sessions.pairs();
        let mut out: Vec<Vec<u8>> = Vec::new();
        let mut i: usize = 0;
        proof {
            lemma_filter_ends(all, test);
            assert(views(out@) =~= keys_of(all.take(0).filter(test)));
        }
        while i < pairs.len()
            invariant
                0 <= i <= pairs@.len(),
                test == streams_channel(subscriber_hash@, channel_hash@),
                pairs@.len() == all.len(),
                forall|j: int|
                    0 <= j < pairs@.len() ==> (#[trigger] pairs@[j]).0@ == all[j].0 && pairs@[j].1@ == all[j].1,
                views(out@) == keys_of(all.take(i as int).filter(test)),
            decreases pairs@.len() - i,
        {
            let ghost found = all.take(i as int).filter(test);
            proof {
                lemma_filter_step(all, test, i as int);
            }
            let s: &ChannelStreamSession = pairs[i].1;
            if same_bytes(s.subscriber_hash.as_slice(), subscriber_hash) && holds(
                s.channel_hashes.as_slice(),
                channel_hash,
            ) {
                let ghost was = views(out@);
                let id: Vec<u8> = copied(pairs[i].0.as_slice());
                out.push(id);
                assert(views(out@) =~= was.push(id@));
                assert(keys_of(found.push(all[i as int])) =~= keys_of(found).push(all[i as int].0));
            }
            i += 1;
        }
        proof {
            lemma_filter_ends(all, test);
        }
        out
    }

    /// Takes in what became of a push on each link: sessions whose links are
    /// gone are dropped.
    pub fn dispatched(&mut self, reports: &Vec<(Vec<u8>, LinkPush)>) -> (r: StreamDispatchResult)
        requires
            old(self).wf(),
        ensures
            final(self).wf(),
            final(self)@ == without_all(old(self)@, gone_links(reports@)),
            r.matched == reports@.len(),
            r.sent == sent_count(reports@),
    {
        proof {
            lemma_filter_mapped(
                self.sessions@,
                channel_stream_view(),
                not_among::<ChannelStreamSession>(gone_links(reports@)),
                not_among::<ChannelStream>(gone_links(reports@)),
            );
        }
        settle_pushes(&mut self.sessions, reports)
    }
}

/// The links of message streams, by the destination whose messages are pushed.
pub struct PropagationStreamRegistry {
    sessions: IdMap<Vec<u8>>,
}

/// A link with the destination whose messages are pushed on it.
pub open spec fn message_stream_view() -> spec_fn((Seq<u8>, Vec<u8>)) -> (Seq<u8>, Seq<u8>) {
    |e: (Seq<u8>, Vec<u8>)| (e.0, e.1@)
}

/// The links of message streams with their destinations.
pub open spec fn message_stream_views(entries: Seq<(Seq<u8>, Vec<u8>)>) -> Seq<(Seq<u8>, Seq<u8>)> {
    entries.map_values(message_stream_view())
}

/// The test that a link is not replaced when a destination opens a stream.
pub open spec fn keeps_other_delivery(link_id: Seq<u8>, delivery: Seq<u8>) -> spec_fn((Seq<u8>, Seq<u8>)) -> bool {
    |e: (Seq<u8>, Seq<u8>)| e.0 == link_id || e.1 != delivery
}

/// The test that a link is that of a destination.
pub open spec fn streams_to(delivery: Seq<u8>) -> spec_fn((Seq<u8>, Seq<u8>)) -> bool {
    |e: (Seq<u8>, Seq<u8>)| e.1 == delivery
}

proof fn lemma_message_streams(
    before: Seq<(Seq<u8>, Vec<u8>)>,
    gone: Seq<Seq<u8>>,
    keep: spec_fn((Seq<u8>, Seq<u8>)) -> bool,
)
    requires
        forall|i: int| 0 <= i < before.len() ==> gone.contains((#[trigger] before[i]).0) == !keep(
            (before[i].0, before[i].1@),
        ),
    ensures
        message_stream_views(without_all(before, gone)) == message_stream_views(before).filter(keep),
{
    let raw = |e: (Seq<u8>, Vec<u8>)| keep((e.0, e.1@));
    lemma_filter_agree(before, not_among::<Vec<u8>>(gone), raw);
    lemma_filter_mapped(before, message_stream_view(), raw, keep);
}

proof fn lemma_message_put(entries: Seq<(Seq<u8>, Vec<u8>)>, id: Seq<u8>, d: Vec<u8>)
    ensures
        has_key(message_stream_views(entries), id) == has_key(entries, id),
        message_stream_views(put(entries, id, d)) == put(message_stream_views(entries), id, d@),
{
    let mapped = message_stream_views(entries);
    if has_key(entries, id) {
        let i = choose|i: int| 0 <= i < entries.len() && (#[trigger] entries[i]).0 == id;
        assert(mapped[i].0 == id);
    }
    if has_key(mapped, id) {
        let i = choose|i: int| 0 <= i < mapped.len() && (#[trigger] mapped[i]).0 == id;
        assert(entries[i].0 == id);
    }
    assert(message_stream_views(put(entries, id, d)) =~= put(mapped, id, d@));
}

impl PropagationStreamRegistry {
    /// The links with their destinations, in the order in which they were
    /// opened.
    pub closed spec fn view(&self) -> Seq<(Seq<u8>, Seq<u8>)> {
        message_stream_views(self.sessions@)
    }

    /// What holds of every registry that this module hands out.
    pub closed spec fn wf(&self) -> bool {
        self.sessions.wf()
    }

    /// A registry without sessions.
    pub fn new() -> (r: Self)
        ensures
            r.wf(),
            r@ == Seq::<(Seq<u8>, Seq<u8>)>::empty(),
    {
        let r: PropagationStreamRegistry = PropagationStreamRegistry { sessions: IdMap::new() };
        assert(r@ =~= Seq::<(Seq<u8>, Seq<u8>)>::empty());
        r
    }

    /// Opens the stream of a destination on a link, in the place of every
    /// other link of the destination. A link on which a stream is open is
    /// refused.
    pub fn register(&mut self, link_id: &[u8], delivery_hash: Vec<u8>) -> (r: Result<(), &'static str>)
        requires
            old(self).wf(),
        ensures
            final(self).wf(),
            r is Err <==> has_key(old(self)@, link_id@),
            r matches Err(e) ==> e@ == "already_open"@ && final(self)@ == old(self)@,
            r is Ok ==> final(self)@ == old(self)@.filter(keeps_other_delivery(link_id@, delivery_hash@)).push(
                (link_id@, delivery_hash@),
            ),
    {
        proof {
            lemma_message_put(self.sessions@, link_id@, delivery_hash);
        }
        if self.sessions.contains(link_id) {
            return Err("already_open");
        }
        let ghost before = self.sessions@;
        let same = |d: &Vec<u8>| -> (b: bool)
            ensures
                b == (d@ == delivery_hash@),
            { same_bytes(d.as_slice(), delivery_hash.as_slice()) };
        let replaced: Vec<Vec<u8>> = evict_others(&mut self.sessions, link_id, same);
        proof {
            lemma_message_streams(before, views(replaced@), keeps_other_delivery(link_id@, delivery_hash@));
            lemma_message_put(self.sessions@, link_id@, delivery_hash);
            lemma_filter_holds(before, not_among::<Vec<u8>>(views(replaced@)));
            assert(!has_key(self.sessions@, link_id@)) by {
                if has_key(self.sessions@, link_id@) {
                    let i = choose|i: int|
                        0 <= i < self.sessions@.len() && (#[trigger] self.sessions@[i]).0 == link_id@;
                    assert(self.sessions@.contains(self.sessions@[i]));
                    assert(before.contains(self.sessions@[i]));
                    let k = before.index_of(self.sessions@[i]);
                    assert(before[k].0 == link_id@);
                }
            }
        }
        self.sessions.insert(copied(link_id), delivery_hash);
        Ok(())
    }

    /// Drops the session of a link. Says whether there was one.
    pub fn remove(&mut self, link_id: &[u8]) -> (r: bool)
        requires
            old(self).wf(),
        ensures
            final(self).wf(),
            r == has_key(old(self)@, link_id@),
            final(self)@ == without(old(self)@, link_id@),
    {
        proof {
            lemma_filter_mapped(
                self.sessions@,
                message_stream_view(),
                not_under::<Vec<u8>>(link_id@),
                not_under::<Seq<u8>>(link_id@),
            );
            lemma_message_put(self.sessions@, link_id@, arbitrary());
        }
        self.sessions.remove(link_id).is_some()
    }

    /// The links on which a push to a destination goes out.
    pub fn links(&self, delivery_hash: &[u8]) -> (r: Vec<Vec<u8>>)
        ensures
            views(r@) == keys_of(self@.filter(streams_to(delivery_hash@))),
    {
        let ghost all = self@;
        let ghost test = streams_to(delivery_hash@);
        let pairs: Vec<(&Vec<u8>, &Vec<u8>)> = self.sessions.pairs();
        let mut out: Vec<Vec<u8>> = Vec::new();
        let mut i: usize = 0;
        proof {
            lemma_filter_ends(all, test);
            assert(views(out@) =~= keys_of(all.take(0).filter(test)));
        }
        while i < pairs.len()
            invariant
                0 <= i <= pairs@.len(),
                test == streams_to(delivery_hash@),
                pairs@.len() == all.len(),
                forall|j: int|
                    0 <= j < pairs@.len() ==> (#[trigger] pairs@[j]).0@ == all[j].0 && pairs@[j].1@ == all[j].1,
                views(out@) == keys_of(all.take(i as int).filter(test)),
            decreases pairs@.len() - i,
        {
            let ghost found = all.take(i as int).filter(test);
            proof {
                lemma_filter_step(all, test, i as int);
            }
            if same_bytes(pairs[i].1.as_slice(), delivery_hash) {
                let ghost was = views(out@);
                let id: Vec<u8> = copied(pairs[i].0.as_slice());
                out.push(id);
                assert(views(out@) =~= was.push(id@));
                assert(keys_of(found.push(all[i as int])) =~= keys_of(found).push(all[i as int].0));
            }
            i += 1;
        }
        proof {
            lemma_filter_ends(all, test);
        }
        out
    }

    /// Takes in what became of a push on each link: sessions whose links are
    /// gone are dropped.
    pub fn dispatched(&mut self, reports: &Vec<(Vec<u8>, LinkPush)>) -> (r: StreamDispatchResult)
        requires
            old(self).wf(),
        ensures
            final(self).wf(),
            final(self)@ == without_all(old(self)@, gone_links(reports@)),
            r.matched == reports@.len(),
            r.sent == sent_count(reports@),
    {
        proof {
            lemma_filter_mapped(
                self.sessions@,
                message_stream_view(),
                not_among::<Vec<u8>>(gone_links(reports@)),
                not_among::<Seq<u8>>(gone_links(reports@)),
            );
        }
        settle_pushes(&mut self.sessions, reports)
    }
}

/// A stream of channels ends the ones that its subscriber has on other links,
/// and no other stream. A blob is streamed on every link on which its subscriber
/// streams its channel.
pub proof fn law_one_stream_per_subscriber(
    streams: Seq<(Seq<u8>, ChannelStream)>,
    link_id: Seq<u8>,
    subscriber: Seq<u8>,
    channel: Seq<u8>,
    e: (Seq<u8>, ChannelStream),
)
    ensures
        streams.filter(keeps_stream_of(link_id, subscriber)).contains(e) <==> streams.contains(e) && (e.1.subscriber
            != subscriber || e.0 == link_id),
        streams.filter(streams_channel(subscriber, channel)).contains(e) <==> streams.contains(e) && e.1.subscriber
            == subscriber && e.1.channels.contains(channel),
{
    crate::octets::lemma_filter_holds(streams, keeps_stream_of(link_id, subscriber));
    crate::octets::lemma_filter_holds(streams, streams_channel(subscriber, channel));
}

/// A stream of messages ends the ones on other links for the same hash, and no
/// other stream. A message is streamed on every link on which the messages for
/// its hash are.
pub proof fn law_one_message_stream_per_hash(
    streams: Seq<(Seq<u8>, Seq<u8>)>,
    link_id: Seq<u8>,
    delivery: Seq<u8>,
    e: (Seq<u8>, Seq<u8>),
)
    ensures
        streams.filter(keeps_other_delivery(link_id, delivery)).contains(e) <==> streams.contains(e) && (e.1 != delivery
            || e.0 == link_id),
        streams.filter(streams_to(delivery)).contains(e) <==> streams.contains(e) && e.1 == delivery,
{
    crate::octets::lemma_filter_holds(streams, keeps_other_delivery(link_id, delivery));
    crate::octets::lemma_filter_holds(streams, streams_to(delivery));
}

/// What a push still waits for is the dispatch, until it has tried every link,
/// and each receipt that has neither been proved nor run out of time.
pub proof fn law_what_a_push_waits_for(
    events: Seq<PushEvent>,
    receipt: spec_fn(PushEvent) -> bool,
    concluded: spec_fn(PushEvent) -> bool,
)
    requires
        push_possible(events),
        forall|e: PushEvent| #[trigger] receipt(e) <==> e is Receipt,
        forall|e: PushEvent| #[trigger] concluded(e) <==> e is Proved || e is TimedOut,
    ensures
        push_run(events).pending == events.filter(receipt).len() - events.filter(concluded).len() + (if exists|i: int|
            0 <= i < events.len() && (#[trigger] events[i]) is DispatchDone {
            0int
        } else {
            1int
        }),
    decreases events.len(),
{
    reveal(Seq::filter);
    if events.len() > 0 {
        let before = events.drop_last();
        let e = events.last();
        let n = events.len() - 1;
        law_what_a_push_waits_for(before, receipt, concluded);
        assert(events[n] == e);
        assert forall|i: int| 0 <= i < n implies #[trigger] events[i] == before[i] by {}
        assert(dispatch_ended(events) <==> dispatch_ended(before) || e is DispatchDone) by {
            if dispatch_ended(before) {
                let i = choose|i: int| 0 <= i < before.len() && (#[trigger] before[i]) is DispatchDone;
                assert(events[i] is DispatchDone);
            }
            if dispatch_ended(events) {
                let i = choose|i: int| 0 <= i < events.len() && (#[trigger] events[i]) is DispatchDone;
                if i < n {
                    assert(before[i] is DispatchDone);
                }
            }
        }
    }
}

/// The three questions that the verdict on a push rests on are whether any link
/// took the packet, whether any proved it, and whether all were tried.
pub proof fn law_questions_about_a_push(events: Seq<PushEvent>, next: PushEvent)
    ensures
        any_proof(events.push(next)) <==> any_proof(events) || next is Proved,
        any_receipt(events.push(next)) <==> any_receipt(events) || next is Receipt,
        dispatch_ended(events.push(next)) <==> dispatch_ended(events) || next is DispatchDone,
        !any_proof(Seq::empty()) && !any_receipt(Seq::empty()) && !dispatch_ended(Seq::empty()),
{
    let all = events.push(next);
    assert(all[events.len() as int] == next);
    assert forall|i: int| 0 <= i < events.len() implies #[trigger] all[i] == events[i] by {}
    if any_proof(events) {
        let i = choose|i: int| 0 <= i < events.len() && (#[trigger] events[i]) is Proved;
        assert(all[i] is Proved);
    }
    if any_receipt(events) {
        let i = choose|i: int| 0 <= i < events.len() && (#[trigger] events[i]) is Receipt;
        assert(all[i] is Receipt);
    }
    if dispatch_ended(events) {
        let i = choose|i: int| 0 <= i < events.len() && (#[trigger] events[i]) is DispatchDone;
        assert(all[i] is DispatchDone);
    }
}

} // verus!
