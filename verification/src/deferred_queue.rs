//! Blobs that wait for a subscriber who cannot be reached.
//!
//! A blob is held here until the subscriber comes for it or is heard of again.
//! The blobs of a subscriber leave in the order in which they came, each of
//! them once.
use vstd::prelude::*;
use crate::lists::{after_n, first_n, without_first};
use crate::msgpack::{entries_fit, entry_list_read, entry_list_views, entry_list_write, read_entry_list, write_entry_list};
use crate::octets::{copied, lemma_filter_ends, lemma_filter_step, same_bytes};

verus! {

/// The most blobs that wait for all subscribers together.
pub const GLOBAL_LIMIT: usize = 4096;

/// A blob that waits, and for whom.
pub struct DeferredEntry {
    /// The subscriber.
    pub subscriber_hash: Vec<u8>,
    /// The channel that the blob was sent to.
    pub channel_hash: Vec<u8>,
    pub blob: Vec<u8>,
    /// Since when it waits.
    pub enqueued_at: u64,
}

/// What a [`DeferredEntry`] holds.
pub struct Deferred {
    pub subscriber: Seq<u8>,
    pub channel: Seq<u8>,
    pub blob: Seq<u8>,
    pub enqueued_at: u64,
}

impl View for DeferredEntry {
    type V = Deferred;

    open spec fn view(&self) -> Deferred {
        Deferred {
            subscriber: self.subscriber_hash@,
            channel: self.channel_hash@,
            blob: self.blob@,
            enqueued_at: self.enqueued_at,
        }
    }
}

/// The contents of a list of entries.
pub open spec fn deferred_views(list: Seq<DeferredEntry>) -> Seq<Deferred> {
    list.map_values(|e: DeferredEntry| e@)
}

/// A blob on its way to the subscriber that it waited for.
pub struct PendingBlob {
    pub channel_hash: Vec<u8>,
    pub blob: Vec<u8>,
    pub enqueued_at: u64,
}

/// What a [`PendingBlob`] holds.
pub struct Pending {
    pub channel: Seq<u8>,
    pub blob: Seq<u8>,
    pub enqueued_at: u64,
}

impl View for PendingBlob {
    type V = Pending;

    open spec fn view(&self) -> Pending {
        Pending { channel: self.channel_hash@, blob: self.blob@, enqueued_at: self.enqueued_at }
    }
}

/// The contents of a list of blobs.
pub open spec fn pending_views(list: Seq<PendingBlob>) -> Seq<Pending> {
    list.map_values(|b: PendingBlob| b@)
}

/// Entries without their subscribers.
pub open spec fn handed_out(entries: Seq<Deferred>) -> Seq<Pending> {
    entries.map_values(|e: Deferred| Pending { channel: e.channel, blob: e.blob, enqueued_at: e.enqueued_at })
}

/// The test that an entry is of a subscriber.
pub open spec fn is_of(subscriber: Seq<u8>) -> spec_fn(Deferred) -> bool {
    |e: Deferred| e.subscriber == subscriber
}

/// The test that an entry is of a subscriber and a channel.
pub open spec fn is_of_channel(subscriber: Seq<u8>, channel: Seq<u8>) -> spec_fn(Deferred) -> bool {
    |e: Deferred| e.subscriber == subscriber && e.channel == channel
}

/// What waits for a subscriber, in order.
pub open spec fn waiting_for(entries: Seq<Deferred>, subscriber: Seq<u8>) -> Seq<Deferred> {
    entries.filter(is_of(subscriber))
}

/// What waits once the oldest blob of a subscriber has gone, where the
/// subscriber has as many as allowed.
pub open spec fn room_made(entries: Seq<Deferred>, subscriber: Seq<u8>, limit: nat) -> Seq<Deferred> {
    if waiting_for(entries, subscriber).len() >= limit {
        without_first(entries, is_of(subscriber), 1)
    } else {
        entries
    }
}

/// What waits once `e` was to wait too: `e` behind the others, of which the
/// oldest of the subscriber goes first where the subscriber has as many as
/// allowed. Where the queue would still be too long then, nothing changes.
pub open spec fn enqueued(entries: Seq<Deferred>, e: Deferred, limit: nat, global_limit: nat) -> Seq<Deferred> {
    let left = room_made(entries, e.subscriber, limit);
    if left.len() >= global_limit {
        entries
    } else {
        left.push(e)
    }
}

/// The test that an entry has not waited for longer than `max_age`.
pub open spec fn still_fresh(now: u64, max_age: u64) -> spec_fn(Deferred) -> bool {
    |e: Deferred| e.enqueued_at + max_age >= now
}

/// Entries as they are saved.
pub open spec fn saved_form(entries: Seq<Deferred>) -> Seq<(Seq<u8>, Seq<u8>, Seq<u8>, u64)> {
    entries.map_values(|e: Deferred| (e.subscriber, e.channel, e.blob, e.enqueued_at))
}

/// Entries that were saved.
pub open spec fn from_saved_form(list: Seq<(Seq<u8>, Seq<u8>, Seq<u8>, u64)>) -> Seq<Deferred> {
    list.map_values(
        |e: (Seq<u8>, Seq<u8>, Seq<u8>, u64)|
            (Deferred { subscriber: e.0, channel: e.1, blob: e.2, enqueued_at: e.3 }),
    )
}

/// What waits in a queue that is loaded: what was saved, given what was read of
/// it, and nothing where nothing could be read.
pub open spec fn loaded(read: Option<Seq<(Seq<u8>, Seq<u8>, Seq<u8>, u64)>>) -> Seq<Deferred> {
    match read {
        Some(list) => from_saved_form(list),
        None => Seq::empty(),
    }
}

/// What was saved is loaded as it was, so that every blob waits for its
/// subscriber in its place.
pub proof fn law_saved_is_loaded(entries: Seq<Deferred>)
    ensures
        loaded(Some(saved_form(entries))) == entries,
{
    assert(from_saved_form(saved_form(entries)) =~= entries);
}

/// The entries that were saved as `data`, where these are entries.
pub fn read_entries(data: &[u8]) -> (r: Option<Vec<DeferredEntry>>)
    ensures
        r is Some <==> entry_list_read(data@) is Some,
        r matches Some(list) ==> deferred_views(list@) == from_saved_form(entry_list_read(data@)->0),
{
    let saved: Vec<(Vec<u8>, Vec<u8>, Vec<u8>, u64)> = match read_entry_list(data) {
        Some(list) => list,
        None => return None,
    };
    let ghost all = from_saved_form(entry_list_views(saved@));
    let mut out: Vec<DeferredEntry> = Vec::new();
    assert(deferred_views(out@) =~= all.take(0));
    for e in it: saved
        invariant
            it.seq() == saved@,
            all == from_saved_form(entry_list_views(saved@)),
            deferred_views(out@) == all.take(it.index()),
    {
        let ghost i = it.index();
        let ghost was = deferred_views(out@);
        let (subscriber_hash, channel_hash, blob, enqueued_at) = e;
        let item: DeferredEntry = DeferredEntry { subscriber_hash, channel_hash, blob, enqueued_at };
        out.push(item);
        proof {
            assert(item@ == all[i]);
            assert(deferred_views(out@) =~= was.push(item@));
            assert(all.take(i + 1) =~= all.take(i).push(all[i]));
        }
    }
    assert(all.take(all.len() as int) =~= all);
    Some(out)
}

/// The blobs that wait, in the order in which they came.
pub struct DeferredQueue {
    pub entries: Vec<DeferredEntry>,
    /// The most blobs that wait for all subscribers together.
    pub global_limit: usize,
}

/// Which entries to take out.
enum Selector<'a> {
    Subscriber(&'a [u8]),
    Channel(&'a [u8], &'a [u8]),
}

impl<'a> Selector<'a> {
    spec fn test(self) -> spec_fn(Deferred) -> bool {
        match self {
            Selector::Subscriber(s) => is_of(s@),
            Selector::Channel(s, c) => is_of_channel(s@, c@),
        }
    }

    fn selects(&self, e: &DeferredEntry) -> (r: bool)
        ensures
            r == self.test()(e@),
    {
        match self {
            Selector::Subscriber(s) => same_bytes(e.subscriber_hash.as_slice(), s),
            Selector::Channel(s, c) => same_bytes(e.subscriber_hash.as_slice(), s) && same_bytes(
                e.channel_hash.as_slice(),
                c,
            ),
        }
    }
}

impl DeferredQueue {
    /// What waits, in the order in which it came.
    pub open spec fn view(&self) -> Seq<Deferred> {
        deferred_views(self.entries@)
    }

    /// The queue of these entries.
    pub fn with_entries(entries: Vec<DeferredEntry>) -> (r: Self)
        ensures
            r@ == deferred_views(entries@),
            r.global_limit == GLOBAL_LIMIT,
    {
        DeferredQueue { entries, global_limit: GLOBAL_LIMIT }
    }

    /// The queue that was saved as `data`; an empty one where nothing was, or
    /// where what is there is no saved queue.
    pub fn load(data: Option<&[u8]>) -> (r: Self)
        ensures
            r@ == loaded(
                match data {
                    Some(bytes) => entry_list_read(bytes@),
                    None => None,
                },
            ),
            r.global_limit == GLOBAL_LIMIT,
    {
        let read: Option<Vec<DeferredEntry>> = match data {
            Some(bytes) => read_entries(bytes),
            None => None,
        };
        let entries: Vec<DeferredEntry> = match read {
            Some(list) => list,
            None => Vec::new(),
        };
        assert(read is None ==> deferred_views(entries@) =~= Seq::empty());
        DeferredQueue::with_entries(entries)
    }

    /// The form in which the queue is saved. Loading it gives the queue back,
    /// as long as its lengths fit.
    pub fn save(&self) -> (r: Vec<u8>)
        ensures
            r@ == entry_list_write(saved_form(self@)),
            entries_fit(saved_form(self@)) ==> loaded(entry_list_read(r@)) == self@,
    {
        let ghost all = saved_form(self@);
        let mut list: Vec<(Vec<u8>, Vec<u8>, Vec<u8>, u64)> = Vec::new();
        let mut i: usize = 0;
        assert(entry_list_views(list@) =~= all.take(0));
        while i < self.entries.len()
            invariant
                0 <= i <= self.entries@.len(),
                all == saved_form(self@),
                entry_list_views(list@) == all.take(i as int),
            decreases self.entries@.len() - i,
        {
            let ghost was = entry_list_views(list@);
            let e: &DeferredEntry = &self.entries[i];
            let item: (Vec<u8>, Vec<u8>, Vec<u8>, u64) = (
                copied(e.subscriber_hash.as_slice()),
                copied(e.channel_hash.as_slice()),
                copied(e.blob.as_slice()),
                e.enqueued_at,
            );
            list.push(item);
            proof {
                assert((item.0@, item.1@, item.2@, item.3) == all[i as int]);
                assert(entry_list_views(list@) =~= was.push(all[i as int]));
                assert(all.take(i + 1) =~= all.take(i as int).push(all[i as int]));
            }
            i += 1;
        }
        proof {
            assert(all.take(all.len() as int) =~= all);
            law_saved_is_loaded(self@);
        }
        write_entry_list(&list)
    }

    /// The number of blobs that wait for all subscribers together.
    pub fn total_len(&self) -> (r: usize)
        ensures
            r == self@.len(),
    {
        self.entries.len()
    }

    fn count(&self, selector: &Selector) -> (r: usize)
        ensures
            r == self@.filter(selector.test()).len(),
    {
        let ghost all = self@;
        let ghost test = selector.test();
        let mut n: usize = 0;
        let mut i: usize = 0;
        proof {
            lemma_filter_ends(all, test);
        }
        while i < self.entries.len()
            invariant
                0 <= i <= self.entries@.len(),
                all == self@,
                test == selector.test(),
                n <= i,
                n == all.take(i as int).filter(test).len(),
            decreases self.entries@.len() - i,
        {
            proof {
                lemma_filter_step(all, test, i as int);
                assert(all[i as int] == self.entries@[i as int]@);
            }
            if selector.selects(&self.entries[i]) {
                n = n + 1;
            }
            i += 1;
        }
        proof {
            lemma_filter_ends(all, test);
        }
        n
    }

    /// Takes out the first `max` entries that are selected.
    fn take_out(&mut self, selector: &Selector, max: usize) -> (r: Vec<PendingBlob>)
        ensures
            final(self).global_limit == old(self).global_limit,
            pending_views(r@) == handed_out(first_n(old(self)@.filter(selector.test()), max as nat)),
            final(self)@ == without_first(old(self)@, selector.test(), max as nat),
    {
        let ghost all = self@;
        let ghost test = selector.test();
        let mut given: Vec<DeferredEntry> = Vec::new();
        std::mem::swap(&mut self.entries, &mut given);
        let ghost list = given@;
        let mut kept: Vec<DeferredEntry> = Vec::new();
        let mut out: Vec<PendingBlob> = Vec::new();
        let ghost mut taken: Seq<Deferred> = Seq::empty();
        proof {
            lemma_filter_ends(all, test);
            assert(all.skip(0) =~= all);
            assert(deferred_views(kept@) + without_first(all.skip(0), test, max as nat) =~= without_first(
                all,
                test,
                max as nat,
            ));
            assert(pending_views(out@) =~= handed_out(taken));
        }
        for e in it: given
            invariant
                it.seq() == list,
                all == deferred_views(list),
                test == selector.test(),
                out@.len() <= max,
                taken == first_n(all.take(it.index()).filter(test), max as nat),
                pending_views(out@) == handed_out(taken),
                deferred_views(kept@) + without_first(all.skip(it.index()), test, (max - out@.len()) as nat)
                    == without_first(all, test, max as nat),
        {
            let ghost i = it.index();
            let ghost left = (max - out@.len()) as nat;
            let ghost kept0 = deferred_views(kept@);
            proof {
                lemma_filter_step(all, test, i);
                assert(all[i] == e@);
                assert(all.skip(i).skip(1) =~= all.skip(i + 1));
                assert(all.skip(i)[0] == e@);
                assert(pending_views(out@).len() == out@.len());
                assert(handed_out(taken).len() == taken.len());
            }
            let ghost ev = e@;
            let ghost matching = all.take(i).filter(test);
            if selector.selects(&e) && out.len() < max {
                let ghost out0 = out@;
                let ghost taken0 = taken;
                out.push(PendingBlob { channel_hash: e.channel_hash, blob: e.blob, enqueued_at: e.enqueued_at });
                proof {
                    assert(first_n(matching, max as nat) == matching);
                    taken = taken.push(ev);
                    assert(taken =~= first_n(matching.push(ev), max as nat));
                    assert(handed_out(taken) =~= handed_out(taken0).push(
                        Pending { channel: ev.channel, blob: ev.blob, enqueued_at: ev.enqueued_at },
                    ));
                    assert(pending_views(out@) =~= handed_out(taken));
                }
            } else {
                let ghost was = kept@;
                kept.push(e);
                proof {
                    assert(deferred_views(kept@) =~= kept0.push(ev));
                    if test(ev) {
                        assert(first_n(matching.push(ev), max as nat) =~= taken);
                        assert(left == 0);
                        assert(kept0.push(ev) + all.skip(i + 1) =~= kept0 + all.skip(i));
                    } else if left == 0 {
                        assert(kept0.push(ev) + all.skip(i + 1) =~= kept0 + all.skip(i));
                    } else {
                        assert(kept0.push(ev) + without_first(all.skip(i + 1), test, left) =~= kept0 + (seq![ev]
                            + without_first(all.skip(i + 1), test, left)));
                    }
                }
            }
        }
        proof {
            lemma_filter_ends(all, test);
            assert(all.skip(all.len() as int) =~= Seq::empty());
            assert(deferred_views(kept@) + Seq::<Deferred>::empty() =~= deferred_views(kept@));
        }
        self.entries = kept;
        out
    }

    /// Lets a blob wait for a subscriber, as [`enqueued`] says. Says whether it
    /// waits now.
    pub fn enqueue(
        &mut self,
        subscriber_hash: Vec<u8>,
        channel_hash: Vec<u8>,
        blob: Vec<u8>,
        per_subscriber_limit: usize,
        now: u64,
    ) -> (r: bool)
        ensures
            final(self).global_limit == old(self).global_limit,
            r == (room_made(old(self)@, subscriber_hash@, per_subscriber_limit as nat).len() < old(self).global_limit),
            final(self)@ == enqueued(
                old(self)@,
                Deferred {
                    subscriber: subscriber_hash@,
                    channel: channel_hash@,
                    blob: blob@,
                    enqueued_at: now,
                },
                per_subscriber_limit as nat,
                old(self).global_limit as nat,
            ),
    {
        let waiting: usize = self.count(&Selector::Subscriber(subscriber_hash.as_slice()));
        let full: bool = waiting >= per_subscriber_limit;
        let gone: usize = if full && waiting > 0 {
            1
        } else {
            0
        };
        proof {
            self@.lemma_filter_len(is_of(subscriber_hash@));
            crate::lists::lemma_without_first_len(self@, is_of(subscriber_hash@), 1);
        }
        if self.entries.len() - gone >= self.global_limit {
            return false;
        }
        if full {
            self.take_out(&Selector::Subscriber(subscriber_hash.as_slice()), 1);
        }
        let ghost before = self@;
        let entry: DeferredEntry = DeferredEntry { subscriber_hash, channel_hash, blob, enqueued_at: now };
        self.entries.push(entry);
        assert(self@ =~= before.push(entry@));
        true
    }

    /// Takes out everything that waits for a subscriber.
    pub fn drain(&mut self, subscriber_hash: &[u8]) -> (r: Vec<PendingBlob>)
        ensures
            final(self).global_limit == old(self).global_limit,
            pending_views(r@) == handed_out(waiting_for(old(self)@, subscriber_hash@)),
            final(self)@ == without_first(old(self)@, is_of(subscriber_hash@), old(self)@.len()),
            waiting_for(final(self)@, subscriber_hash@).len() == 0,
    {
        let max: usize = self.entries.len();
        proof {
            let test = is_of(subscriber_hash@);
            self@.lemma_filter_len(test);
            crate::lists::lemma_without_first_left(self@, test, self@.len());
        }
        self.take_out(&Selector::Subscriber(subscriber_hash), max)
    }

    /// Takes out the first `max` blobs that wait for a subscriber.
    pub fn drain_batch(&mut self, subscriber_hash: &[u8], max: usize) -> (r: Vec<PendingBlob>)
        ensures
            final(self).global_limit == old(self).global_limit,
            pending_views(r@) == handed_out(first_n(waiting_for(old(self)@, subscriber_hash@), max as nat)),
            final(self)@ == without_first(old(self)@, is_of(subscriber_hash@), max as nat),
    {
        self.take_out(&Selector::Subscriber(subscriber_hash), max)
    }

    /// Takes out the first `max` blobs of a channel that wait for a
    /// subscriber.
    pub fn drain_channel_batch(&mut self, subscriber_hash: &[u8], channel_hash: &[u8], max: usize) -> (r: Vec<
        PendingBlob,
    >)
        ensures
            final(self).global_limit == old(self).global_limit,
            pending_views(r@) == handed_out(
                first_n(old(self)@.filter(is_of_channel(subscriber_hash@, channel_hash@)), max as nat),
            ),
            final(self)@ == without_first(
                old(self)@,
                is_of_channel(subscriber_hash@, channel_hash@),
                max as nat,
            ),
    {
        self.take_out(&Selector::Channel(subscriber_hash, channel_hash), max)
    }

    /// Whether anything waits for a subscriber.
    pub fn has_pending(&self, subscriber_hash: &[u8]) -> (r: bool)
        ensures
            r == (waiting_for(self@, subscriber_hash@).len() > 0),
    {
        self.count(&Selector::Subscriber(subscriber_hash)) > 0
    }

    /// Whether anything of a channel waits for a subscriber.
    pub fn has_pending_channel(&self, subscriber_hash: &[u8], channel_hash: &[u8]) -> (r: bool)
        ensures
            r == (self@.filter(is_of_channel(subscriber_hash@, channel_hash@)).len() > 0),
    {
        self.count(&Selector::Channel(subscriber_hash, channel_hash)) > 0
    }

    /// Drops what has waited for longer than `max_age`. Says whether there was
    /// any.
    pub fn evict_expired(&mut self, max_age: u64, now: u64) -> (r: bool)
        ensures
            final(self).global_limit == old(self).global_limit,
            final(self)@ == old(self)@.filter(still_fresh(now, max_age)),
            r == (final(self)@.len() != old(self)@.len()),
    {
        let ghost all = self@;
        let ghost test = still_fresh(now, max_age);
        let before: usize = self.entries.len();
        let mut given: Vec<DeferredEntry> = Vec::new();
        std::mem::swap(&mut self.entries, &mut given);
        let ghost list = given@;
        let mut kept: Vec<DeferredEntry> = Vec::new();
        proof {
            lemma_filter_ends(all, test);
            assert(deferred_views(kept@) =~= Seq::empty());
        }
        for e in it: given
            invariant
                it.seq() == list,
                all == deferred_views(list),
                test == still_fresh(now, max_age),
                deferred_views(kept@) == all.take(it.index()).filter(test),
        {
            let ghost i = it.index();
            proof {
                lemma_filter_step(all, test, i);
                assert(all[i] == e@);
            }
            let fresh: bool = e.enqueued_at >= now || now - e.enqueued_at <= max_age;
            if fresh {
                let ghost was = deferred_views(kept@);
                let ghost ev = e@;
                kept.push(e);
                assert(deferred_views(kept@) =~= was.push(ev));
            }
        }
        proof {
            lemma_filter_ends(all, test);
        }
        self.entries = kept;
        self.entries.len() != before
    }
}

/// Two pages taken one after the other hold what one page of both sizes would,
/// so nothing is handed out twice and the order is kept.
pub proof fn law_pages_follow_each_other(entries: Seq<Deferred>, subscriber: Seq<u8>, n: nat, m: nat)
    ensures
        ({
            let after = without_first(entries, is_of(subscriber), n);
            &&& waiting_for(after, subscriber) == after_n(waiting_for(entries, subscriber), n)
            &&& first_n(waiting_for(entries, subscriber), n) + first_n(waiting_for(after, subscriber), m) == first_n(
                waiting_for(entries, subscriber),
                n + m,
            )
        }),
{
    crate::lists::lemma_without_first_left(entries, is_of(subscriber), n);
    crate::lists::lemma_pages_join(waiting_for(entries, subscriber), n, m);
}

/// What is taken out for one subscriber is not missed by another.
pub proof fn law_subscribers_do_not_interfere(entries: Seq<Deferred>, one: Seq<u8>, other: Seq<u8>, n: nat)
    requires
        one != other,
    ensures
        waiting_for(without_first(entries, is_of(one), n), other) == waiting_for(entries, other),
{
    crate::lists::lemma_without_first_others(entries, is_of(one), n, is_of(other));
}

/// A blob that waits comes out last, behind what waited before it. Of that the
/// oldest is gone where the subscriber had as many as allowed.
pub proof fn law_enqueued_comes_out_last(entries: Seq<Deferred>, e: Deferred, limit: nat, global_limit: nat)
    requires
        room_made(entries, e.subscriber, limit).len() < global_limit,
    ensures
        waiting_for(enqueued(entries, e, limit, global_limit), e.subscriber) == (if waiting_for(
            entries,
            e.subscriber,
        ).len() >= limit {
            after_n(waiting_for(entries, e.subscriber), 1)
        } else {
            waiting_for(entries, e.subscriber)
        }).push(e),
{
    reveal(Seq::filter);
    let left = room_made(entries, e.subscriber, limit);
    crate::lists::lemma_without_first_left(entries, is_of(e.subscriber), 1);
    assert(left.push(e).drop_last() =~= left);
}

/// What waits for a subscriber is all that was queued for them and nothing else,
/// in its order; and likewise for a channel of theirs.
pub proof fn law_what_waits_is_the_subscribers(
    entries: Seq<Deferred>,
    subscriber: Seq<u8>,
    channel: Seq<u8>,
    mine: spec_fn(Deferred) -> bool,
    of_both: spec_fn(Deferred) -> bool,
)
    requires
        forall|e: Deferred| #[trigger] mine(e) <==> e.subscriber == subscriber,
        forall|e: Deferred| #[trigger] of_both(e) <==> e.subscriber == subscriber && e.channel == channel,
    ensures
        waiting_for(entries, subscriber) == entries.filter(mine),
        entries.filter(is_of_channel(subscriber, channel)) == entries.filter(of_both),
{
    crate::octets::lemma_filter_agree(entries, is_of(subscriber), mine);
    crate::octets::lemma_filter_agree(entries, is_of_channel(subscriber, channel), of_both);
}

/// A blob is handed out with its channel, its bytes and the time since which it
/// waits, each in its place.
pub proof fn law_handed_out_as_it_was(entries: Seq<Deferred>)
    ensures
        handed_out(entries).len() == entries.len(),
        forall|i: int|
            0 <= i < entries.len() ==> (#[trigger] handed_out(entries)[i]).channel == entries[i].channel && handed_out(
                entries,
            )[i].blob == entries[i].blob && handed_out(entries)[i].enqueued_at == entries[i].enqueued_at,
{
}

/// What has waited for no longer than `max_age` stays, and only that.
pub proof fn law_only_the_expired_go(entries: Seq<Deferred>, now: u64, max_age: u64, e: Deferred)
    ensures
        entries.filter(still_fresh(now, max_age)).contains(e) <==> entries.contains(e) && now - e.enqueued_at <= max_age,
{
    crate::octets::lemma_filter_holds(entries, still_fresh(now, max_age));
}

/// Whether a blob is taken, and what becomes of the queue. The oldest of the
/// subscriber makes way where the subscriber has as many as allowed; the blob is
/// taken where the queue is below its limit then, and is the last of all. What
/// waits for others stays as it is; and where the blob is not taken, everything
/// does.
pub proof fn law_what_enqueueing_does(
    entries: Seq<Deferred>,
    e: Deferred,
    limit: nat,
    global_limit: nat,
    other: Seq<u8>,
)
    requires
        other != e.subscriber,
    ensures
        ({
            let mine = waiting_for(entries, e.subscriber);
            let gone = if mine.len() >= limit && mine.len() > 0 {
                1int
            } else {
                0int
            };
            let after = enqueued(entries, e, limit, global_limit);
            &&& room_made(entries, e.subscriber, limit).len() == entries.len() - gone
            &&& waiting_for(after, other) == waiting_for(entries, other)
            &&& entries.len() - gone >= global_limit ==> after == entries
            &&& entries.len() - gone < global_limit ==> {
                &&& after.len() == entries.len() - gone + 1
                &&& after.last() == e
                &&& waiting_for(after, e.subscriber) == mine.skip(gone).push(e)
            }
        }),
{
    let mine = waiting_for(entries, e.subscriber);
    let test = is_of(e.subscriber);
    let left = room_made(entries, e.subscriber, limit);
    reveal(Seq::filter);
    crate::octets::lemma_filter_holds(entries, test);
    crate::lists::lemma_without_first_len(entries, test, 1);
    crate::lists::lemma_without_first_left(entries, test, 1);
    law_subscribers_do_not_interfere(entries, e.subscriber, other, 1);
    assert(left.push(e).drop_last() =~= left);
    assert(mine.skip(0) =~= mine);
    assert(mine.len() > 0 ==> after_n(mine, 1) =~= mine.skip(1));
    assert(mine.len() == 0 ==> after_n(mine, 1) =~= mine);
}

/// A queue that holds no more than its limits never does.
pub proof fn law_limits_are_kept(entries: Seq<Deferred>, e: Deferred, limit: nat, global_limit: nat)
    requires
        limit > 0,
        entries.len() <= global_limit,
        waiting_for(entries, e.subscriber).len() <= limit,
    ensures
        enqueued(entries, e, limit, global_limit).len() <= global_limit,
        waiting_for(enqueued(entries, e, limit, global_limit), e.subscriber).len() <= limit,
{
    let test = is_of(e.subscriber);
    reveal(Seq::filter);
    crate::lists::lemma_without_first_left(entries, test, 1);
    crate::lists::lemma_without_first_len(entries, test, 1);
    let fewer = without_first(entries, test, 1);
    assert(fewer.push(e).drop_last() =~= fewer);
    assert(entries.push(e).drop_last() =~= entries);
}

/// What one more blob does to what waits for a subscriber.
pub proof fn lemma_one_more_waits(entries: Seq<Deferred>, e: Deferred, limit: nat, global_limit: nat, s: Seq<u8>)
    requires
        entries.len() < global_limit,
    ensures
        enqueued(entries, e, limit, global_limit).len() <= entries.len() + 1,
        waiting_for(enqueued(entries, e, limit, global_limit), s) == (if s != e.subscriber {
            waiting_for(entries, s)
        } else if waiting_for(entries, s).len() >= limit && waiting_for(entries, s).len() > 0 {
            waiting_for(entries, s).skip(1).push(e)
        } else {
            waiting_for(entries, s).push(e)
        }),
{
    let other = if s != e.subscriber {
        s
    } else {
        e.subscriber.push(0)
    };
    assert(other != e.subscriber) by {
        assert(s == e.subscriber ==> other.len() != e.subscriber.len());
    }
    law_what_enqueueing_does(entries, e, limit, global_limit, other);
    assert(waiting_for(entries, e.subscriber).skip(0) =~= waiting_for(entries, e.subscriber));
}

/// A blob that the queue takes is the last that the subscriber is handed, with
/// its channel and its bytes, and what waits for others is not touched. Where it
/// is not taken, nothing changes.
pub proof fn law_queued_blob_is_handed_out(
    queue: &mut DeferredQueue,
    subscriber: Vec<u8>,
    channel: Vec<u8>,
    blob: Vec<u8>,
    limit: usize,
    now: u64,
    taken: bool,
    later: &mut DeferredQueue,
    hash: &[u8],
    out: Vec<PendingBlob>,
    other: Seq<u8>,
)
    requires
        call_ensures(DeferredQueue::enqueue, (queue, subscriber, channel, blob, limit, now), taken),
        *old(later) == *final(queue),
        call_ensures(DeferredQueue::drain, (later, hash), out),
        hash@ == subscriber@,
        other != subscriber@,
    ensures
        taken ==> out@.len() > 0 && out@.last()@.channel == channel@ && out@.last()@.blob == blob@
            && out@.last()@.enqueued_at == now,
        !taken ==> final(queue)@ == old(queue)@,
        waiting_for(final(later)@, other) == waiting_for(old(queue)@, other),
        waiting_for(final(later)@, subscriber@).len() == 0,
{
    let e = Deferred { subscriber: subscriber@, channel: channel@, blob: blob@, enqueued_at: now };
    let global_limit = old(queue).global_limit as nat;
    law_what_enqueueing_does(old(queue)@, e, limit as nat, global_limit, other);
    law_subscribers_do_not_interfere(final(queue)@, subscriber@, other, final(queue)@.len());
    let waiting = waiting_for(final(queue)@, subscriber@);
    assert(pending_views(out@) == handed_out(waiting));
    if taken {
        assert(waiting.last() == e);
        assert(pending_views(out@).last() == handed_out(waiting).last());
        assert(pending_views(out@).len() == out@.len());
    }
}

/// Two pages taken one after the other are handed out in the order in which the
/// blobs came, and none of them twice.
pub proof fn law_second_page_follows_the_first(
    queue: &mut DeferredQueue,
    hash: &[u8],
    n: usize,
    first: Vec<PendingBlob>,
    later: &mut DeferredQueue,
    m: usize,
    second: Vec<PendingBlob>,
)
    requires
        call_ensures(DeferredQueue::drain_batch, (queue, hash, n), first),
        *old(later) == *final(queue),
        call_ensures(DeferredQueue::drain_batch, (later, hash, m), second),
    ensures
        ({
            let waiting = waiting_for(old(queue)@, hash@);
            let all = pending_views(first@) + pending_views(second@);
            &&& all.len() == (if waiting.len() < n + m {
                waiting.len() as int
            } else {
                n + m
            })
            &&& first@.len() <= n
            &&& forall|i: int|
                0 <= i < all.len() ==> (#[trigger] all[i]).blob == waiting[i].blob && all[i].channel
                    == waiting[i].channel
        }),
{
    let waiting = waiting_for(old(queue)@, hash@);
    law_pages_follow_each_other(old(queue)@, hash@, n as nat, m as nat);
    let left = waiting_for(final(queue)@, hash@);
    assert(handed_out(first_n(waiting, n as nat)) + handed_out(first_n(left, m as nat)) =~= handed_out(
        first_n(waiting, n as nat) + first_n(left, m as nat),
    ));
    assert(pending_views(first@).len() == first@.len());
}

/// What waits is told of exactly where there is some, and what has waited for
/// longer than is allowed goes.
pub proof fn law_what_waits_is_told_of(
    queue: &mut DeferredQueue,
    max_age: u64,
    now: u64,
    gone: bool,
    later: &DeferredQueue,
    hash: &[u8],
    pending: bool,
)
    requires
        call_ensures(DeferredQueue::evict_expired, (queue, max_age, now), gone),
        *later == *final(queue),
        call_ensures(DeferredQueue::has_pending, (later, hash), pending),
    ensures
        pending <==> exists|e: Deferred| #[trigger]
            old(queue)@.contains(e) && e.subscriber == hash@ && now - e.enqueued_at <= max_age,
{
    let left = final(queue)@;
    crate::octets::lemma_filter_holds(old(queue)@, still_fresh(now, max_age));
    crate::octets::lemma_filter_holds(left, is_of(hash@));
    let mine = waiting_for(left, hash@);
    if pending {
        assert(mine.contains(mine[0]));
        assert(left.contains(mine[0]));
        assert(old(queue)@.contains(mine[0]));
    }
    if exists|e: Deferred| #[trigger]
        old(queue)@.contains(e) && e.subscriber == hash@ && now - e.enqueued_at <= max_age {
        let e = choose|e: Deferred| #[trigger]
            old(queue)@.contains(e) && e.subscriber == hash@ && now - e.enqueued_at <= max_age;
        assert(still_fresh(now, max_age)(e));
        assert(left.contains(e));
        assert(is_of(hash@)(e));
        assert(mine.contains(e));
    }
}

} // verus!
