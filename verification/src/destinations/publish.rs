//! Blobs that are sent to a channel, and blobs that waited for a subscriber
//! who is heard of again.
use vstd::prelude::*;
use crate::config::{effective_cost_of, effective_stamp_cost, min_cost_of, min_stamp_cost, TierPolicy};
use crate::deferred_queue::{enqueued, handed_out, is_of, pending_views, waiting_for, Deferred, Pending, PendingBlob};
use crate::destinations::fed_node::FedNode;
use crate::destinations::{CHANNEL_HASH_LEN, STAMP_SIZE};
use crate::digest::{sha256, sha256_of};
use crate::lists::without_first;
use crate::octets::{copied, slice_of};

verus! {

/// The work that is to be checked before a blob is taken.
pub struct StampCheck {
    pub stamp: Vec<u8>,
    /// What the work is bound to: the digest of the channel and the blob.
    pub transient_id: Vec<u8>,
    /// The fewest bits that are accepted.
    pub min_cost: u32,
}

/// A blob for a channel.
pub struct SendFrame {
    pub channel_hash: Vec<u8>,
    pub inner_blob: Vec<u8>,
    /// The work to be checked, where stamps are asked for.
    pub check: Option<StampCheck>,
}

/// Why a packet is no blob for a channel.
#[derive(Clone, Copy, Debug, PartialEq, Eq, Structural)]
pub enum SendError {
    /// It is too short for a channel and a blob.
    TooShort,
    /// It is too short for a stamp behind them.
    NoRoomForStamp,
}

/// Where the blob of a packet ends: before the stamp, where one is asked for.
pub open spec fn blob_end(policy: TierPolicy, len: nat) -> int {
    if effective_cost_of(policy.stamp_cost) is Some {
        len - STAMP_SIZE
    } else {
        len as int
    }
}

/// What a packet is made of: the channel, the blob, and behind it the stamp
/// where one is asked for.
pub open spec fn is_frame_of(policy: TierPolicy, data: Seq<u8>, f: SendFrame) -> bool {
    let end = blob_end(policy, data.len());
    &&& f.channel_hash@ == data.take(CHANNEL_HASH_LEN as int)
    &&& f.inner_blob@ == data.subrange(CHANNEL_HASH_LEN as int, end)
    &&& match (effective_cost_of(policy.stamp_cost), f.check) {
        (Some(cost), Some(c)) => c.stamp@ == data.skip(end) && c.transient_id@ == sha256_of(data.take(end))
            && c.min_cost == min_cost_of(cost, policy.stamp_flexibility),
        (None, None) => true,
        _ => false,
    }
}

/// Why a packet is refused, where it is.
pub open spec fn send_refusal(policy: TierPolicy, len: nat) -> Option<SendError> {
    if len < CHANNEL_HASH_LEN + 1 {
        Some(SendError::TooShort)
    } else if effective_cost_of(policy.stamp_cost) is Some && len < CHANNEL_HASH_LEN + STAMP_SIZE + 1 {
        Some(SendError::NoRoomForStamp)
    } else {
        None
    }
}

/// Takes a packet for a channel apart. What is asked of everyone decides
/// whether there is a stamp behind the blob.
pub fn open_send(policy: &TierPolicy, data: &[u8]) -> (r: Result<SendFrame, SendError>)
    ensures
        match send_refusal(*policy, data@.len()) {
            Some(e) => r == Err::<SendFrame, SendError>(e),
            None => r matches Ok(f) && is_frame_of(*policy, data@, f),
        },
{
    if data.len() < CHANNEL_HASH_LEN + 1 {
        return Err(SendError::TooShort);
    }
    let channel_hash: Vec<u8> = slice_of(data, 0, CHANNEL_HASH_LEN);
    assert(channel_hash@ =~= data@.take(CHANNEL_HASH_LEN as int));
    match effective_stamp_cost(policy.stamp_cost) {
        Some(cost) => {
            if data.len() < CHANNEL_HASH_LEN + STAMP_SIZE + 1 {
                return Err(SendError::NoRoomForStamp);
            }
            let end: usize = data.len() - STAMP_SIZE;
            let material: Vec<u8> = slice_of(data, 0, end);
            let stamp: Vec<u8> = slice_of(data, end, data.len());
            proof {
                assert(material@ =~= data@.take(end as int));
                assert(stamp@ =~= data@.skip(end as int));
            }
            let check: StampCheck = StampCheck {
                stamp,
                transient_id: sha256(material.as_slice()),
                min_cost: min_stamp_cost(cost, policy.stamp_flexibility),
            };
            Ok(SendFrame { channel_hash, inner_blob: slice_of(data, CHANNEL_HASH_LEN, end), check: Some(check) })
        },
        None => Ok(
            SendFrame { channel_hash, inner_blob: slice_of(data, CHANNEL_HASH_LEN, data.len()), check: None },
        ),
    }
}

/// Whether a blob is taken: no work is asked for, or the work holds.
pub fn is_accepted(frame: &SendFrame, stamp_holds: bool) -> (r: bool)
    ensures
        r == (frame.check is None || stamp_holds),
{
    frame.check.is_none() || stamp_holds
}

/// Nothing of a packet is lost or counted twice: the channel, the blob and the
/// stamp, in this order, make it up. Without a cost, and with a cost of zero,
/// the blob reaches to the end of the packet.
pub proof fn law_frame_covers_packet(policy: TierPolicy, data: Seq<u8>, f: SendFrame)
    requires
        send_refusal(policy, data.len()) is None,
        is_frame_of(policy, data, f),
    ensures
        f.check matches Some(c) ==> data == f.channel_hash@ + f.inner_blob@ + c.stamp@ && c.stamp@.len() == STAMP_SIZE
            && c.transient_id@ == sha256_of(f.channel_hash@ + f.inner_blob@),
        f.check is None ==> data == f.channel_hash@ + f.inner_blob@,
        policy.stamp_cost is None || policy.stamp_cost == Some(0u32) ==> f.check is None,
        f.inner_blob@.len() > 0,
{
    let end = blob_end(policy, data.len());
    assert(f.channel_hash@ + f.inner_blob@ =~= data.take(end));
    if f.check is Some {
        assert(data =~= data.take(end) + data.skip(end));
    } else {
        assert(data.take(end) =~= data);
    }
}

/// What waits once a list of blobs waits for a subscriber.
pub open spec fn with_waiting(
    entries: Seq<Deferred>,
    subscriber: Seq<u8>,
    blobs: Seq<Pending>,
    limit: nat,
    global_limit: nat,
    now: u64,
) -> Seq<Deferred>
    decreases blobs.len(),
{
    if blobs.len() == 0 {
        entries
    } else {
        enqueued(
            with_waiting(entries, subscriber, blobs.drop_last(), limit, global_limit, now),
            Deferred {
                subscriber,
                channel: blobs.last().channel,
                blob: blobs.last().blob,
                enqueued_at: now,
            },
            limit,
            global_limit,
        )
    }
}

impl FedNode {
    /// Takes out everything that waits for a subscriber who is heard of again.
    pub fn take_deferred(&mut self, identity_hash: &[u8]) -> (r: Vec<PendingBlob>)
        ensures
            *final(self) == (FedNode { deferred_queue: final(self).deferred_queue, ..*old(self) }),
            final(self).deferred_queue.global_limit == old(self).deferred_queue.global_limit,
            pending_views(r@) == handed_out(waiting_for(old(self).deferred_queue@, identity_hash@)),
            final(self).deferred_queue@ == without_first(
                old(self).deferred_queue@,
                is_of(identity_hash@),
                old(self).deferred_queue@.len(),
            ),
    {
        self.deferred_queue.drain(identity_hash)
    }

    /// Lets blobs wait for a subscriber again.
    pub fn requeue_deferred(&mut self, identity_hash: &[u8], blobs: Vec<PendingBlob>, now: u64)
        ensures
            *final(self) == (FedNode { deferred_queue: final(self).deferred_queue, ..*old(self) }),
            final(self).deferred_queue.global_limit == old(self).deferred_queue.global_limit,
            final(self).deferred_queue@ == with_waiting(
                old(self).deferred_queue@,
                identity_hash@,
                pending_views(blobs@),
                old(self).config.spec_policy_for(identity_hash@).deferred_queue_limit as nat,
                old(self).deferred_queue.global_limit as nat,
                now,
            ),
    {
        let limit: usize = self.config.policy_for(identity_hash).deferred_queue_limit;
        let ghost all = pending_views(blobs@);
        let ghost before = self.deferred_queue@;
        let ghost global_limit = self.deferred_queue.global_limit;
        for b in it: blobs
            invariant
                it.seq() == blobs@,
                all == pending_views(blobs@),
                self.deferred_queue.global_limit == global_limit,
                *self == (FedNode { deferred_queue: self.deferred_queue, ..*old(self) }),
                self.deferred_queue@ == with_waiting(
                    before,
                    identity_hash@,
                    all.take(it.index()),
                    limit as nat,
                    global_limit as nat,
                    now,
                ),
        {
            let ghost i = it.index();
            proof {
                assert(all.take(i + 1).drop_last() =~= all.take(i));
                assert(all.take(i + 1).last() == b@);
            }
            self.deferred_queue.enqueue(copied(identity_hash), b.channel_hash, b.blob, limit, now);
        }
        assert(all.take(all.len() as int) =~= all);
    }
}

proof fn lemma_waiting_len(
    entries: Seq<Deferred>,
    subscriber: Seq<u8>,
    blobs: Seq<Pending>,
    limit: nat,
    global_limit: nat,
    now: u64,
)
    requires
        entries.len() + blobs.len() <= global_limit,
        waiting_for(entries, subscriber).len() == 0,
        blobs.len() <= limit,
    ensures
        with_waiting(entries, subscriber, blobs, limit, global_limit, now).len() == entries.len() + blobs.len(),
        waiting_for(with_waiting(entries, subscriber, blobs, limit, global_limit, now), subscriber) == blobs.map_values(
            |p: Pending| Deferred { subscriber, channel: p.channel, blob: p.blob, enqueued_at: now },
        ),
    decreases blobs.len(),
{
    reveal(Seq::filter);
    let f = |p: Pending| Deferred { subscriber, channel: p.channel, blob: p.blob, enqueued_at: now };
    if blobs.len() == 0 {
        assert(waiting_for(entries, subscriber) =~= blobs.map_values(f));
    } else {
        let rest = blobs.drop_last();
        lemma_waiting_len(entries, subscriber, rest, limit, global_limit, now);
        let mid = with_waiting(entries, subscriber, rest, limit, global_limit, now);
        let e = f(blobs.last());
        crate::deferred_queue::law_enqueued_comes_out_last(mid, e, limit, global_limit);
        assert(blobs.map_values(f) =~= rest.map_values(f).push(e));
    }
}

/// Blobs that could not be sent are not lost: where none of them went out,
/// the subscriber is left with the same blobs in the same order, as long as
/// they are no more than its tier allows.
pub proof fn law_unsent_blobs_wait_again(entries: Seq<Deferred>, subscriber: Seq<u8>, limit: nat, global_limit: nat, now: u64)
    requires
        entries.len() <= global_limit,
        waiting_for(entries, subscriber).len() <= limit,
    ensures
        ({
            let taken = handed_out(waiting_for(entries, subscriber));
            let left = without_first(entries, is_of(subscriber), entries.len());
            let after = waiting_for(with_waiting(left, subscriber, taken, limit, global_limit, now), subscriber);
            &&& after.len() == waiting_for(entries, subscriber).len()
            &&& forall|i: int|
                0 <= i < after.len() ==> (#[trigger] after[i]).channel == waiting_for(entries, subscriber)[i].channel
                    && after[i].blob == waiting_for(entries, subscriber)[i].blob
        }),
{
    let test = is_of(subscriber);
    let mine = waiting_for(entries, subscriber);
    let taken = handed_out(mine);
    let left = without_first(entries, test, entries.len());
    entries.lemma_filter_len(test);
    crate::lists::lemma_without_first_left(entries, test, entries.len());
    crate::lists::lemma_without_first_len(entries, test, entries.len());
    assert(waiting_for(left, subscriber) =~= Seq::empty());
    lemma_waiting_len(left, subscriber, taken, limit, global_limit, now);
}

/// Blobs that are to wait again do so behind what waits already, each with its
/// channel and in its order, where there is room for them and the tier allows as
/// many; and what waits for another subscriber stays as it is.
pub proof fn law_requeued_blobs_wait_in_order(
    entries: Seq<Deferred>,
    subscriber: Seq<u8>,
    blobs: Seq<Pending>,
    limit: nat,
    global_limit: nat,
    now: u64,
    other: Seq<u8>,
)
    requires
        entries.len() + blobs.len() <= global_limit,
        waiting_for(entries, subscriber).len() + blobs.len() <= limit,
        other != subscriber,
    ensures
        ({
            let before = waiting_for(entries, subscriber);
            let all = with_waiting(entries, subscriber, blobs, limit, global_limit, now);
            let after = waiting_for(all, subscriber);
            &&& all.len() == entries.len() + blobs.len()
            &&& waiting_for(all, other) == waiting_for(entries, other)
            &&& after.len() == before.len() + blobs.len()
            &&& after.take(before.len() as int) == before
            &&& forall|i: int|
                0 <= i < blobs.len() ==> (#[trigger] blobs[i]).channel == after[before.len() + i].channel
                    && blobs[i].blob == after[before.len() + i].blob && after[before.len() + i].enqueued_at == now
        }),
    decreases blobs.len(),
{
    let before = waiting_for(entries, subscriber);
    if blobs.len() == 0 {
        assert(before.take(before.len() as int) =~= before);
    } else {
        let rest = blobs.drop_last();
        law_requeued_blobs_wait_in_order(entries, subscriber, rest, limit, global_limit, now, other);
        let mid = with_waiting(entries, subscriber, rest, limit, global_limit, now);
        let e = Deferred { subscriber, channel: blobs.last().channel, blob: blobs.last().blob, enqueued_at: now };
        crate::deferred_queue::law_what_enqueueing_does(mid, e, limit, global_limit, other);
        let was = waiting_for(mid, subscriber);
        let after = waiting_for(with_waiting(entries, subscriber, blobs, limit, global_limit, now), subscriber);
        assert(was.skip(0) =~= was);
        assert(after == was.push(e));
        assert(after.take(before.len() as int) =~= was.take(before.len() as int));
        assert forall|i: int| 0 <= i < blobs.len() implies (#[trigger] blobs[i]).channel == after[before.len()
            + i].channel && blobs[i].blob == after[before.len() + i].blob && after[before.len() + i].enqueued_at == now by {
            if i < rest.len() {
                assert(rest[i] == blobs[i]);
                assert(after[before.len() + i] == was[before.len() + i]);
            }
        }
    }
}

/// A blob is refused exactly where it has no byte besides its channel and, where
/// stamps are asked for, its stamp; and a stamp is to be as strong as the tier
/// asks, less what it allows for.
pub proof fn law_which_blobs_are_taken(policy: TierPolicy, data: Seq<u8>, f: SendFrame)
    requires
        is_frame_of(policy, data, f),
    ensures
        send_refusal(policy, data.len()) is None <==> data.len() >= 17 && (policy.stamp_cost is Some
            && policy.stamp_cost->0 > 0 ==> data.len() >= 49),
        send_refusal(policy, data.len()) == Some(SendError::TooShort) <==> data.len() < 17,
        f.check is Some <==> policy.stamp_cost is Some && policy.stamp_cost->0 > 0,
        f.check matches Some(c) ==> {
            let slack = if policy.stamp_flexibility is Some {
                policy.stamp_flexibility->0 as int
            } else {
                0
            };
            &&& c.min_cost + slack >= policy.stamp_cost->0
            &&& c.min_cost == 0 || c.min_cost + slack == policy.stamp_cost->0
        },
{
}

/// A blob is accepted where no stamp is asked for, and otherwise where the stamp
/// holds.
pub proof fn law_when_a_blob_is_accepted(frame: &SendFrame, stamp_holds: bool, r: bool)
    requires
        call_ensures(is_accepted, (frame, stamp_holds), r),
    ensures
        frame.check is None ==> r,
        frame.check is Some ==> (r <==> stamp_holds),
{
}

/// What is taken out for a subscriber and could not be sent waits again, in its
/// order, as far as it may, and nothing of it is lost in between for others.
pub proof fn law_others_keep_waiting(
    node: &mut FedNode,
    hash: &[u8],
    blobs: Vec<PendingBlob>,
    later: &mut FedNode,
    back: Vec<PendingBlob>,
    now: u64,
    other: Seq<u8>,
)
    requires
        call_ensures(FedNode::take_deferred, (node, hash), blobs),
        *old(later) == *final(node),
        call_ensures(FedNode::requeue_deferred, (later, hash, back, now), ()),
        other != hash@,
    ensures
        waiting_for(final(node).deferred_queue@, hash@).len() == 0,
        blobs@.len() == waiting_for(old(node).deferred_queue@, hash@).len(),
        waiting_for(final(later).deferred_queue@, other) == waiting_for(old(node).deferred_queue@, other),
{
    let entries = old(node).deferred_queue@;
    crate::deferred_queue::law_subscribers_do_not_interfere(entries, hash@, other, entries.len());
    crate::lists::lemma_without_first_left(entries, is_of(hash@), entries.len());
    crate::octets::lemma_filter_holds(entries, is_of(hash@));
    lemma_waiting_leaves_others(
        final(node).deferred_queue@,
        hash@,
        pending_views(back@),
        old(later).config.spec_policy_for(hash@).deferred_queue_limit as nat,
        old(later).deferred_queue.global_limit as nat,
        now,
        other,
    );
    assert(pending_views(blobs@).len() == blobs@.len());
}

proof fn lemma_waiting_leaves_others(
    entries: Seq<Deferred>,
    subscriber: Seq<u8>,
    blobs: Seq<Pending>,
    limit: nat,
    global_limit: nat,
    now: u64,
    other: Seq<u8>,
)
    requires
        other != subscriber,
    ensures
        waiting_for(with_waiting(entries, subscriber, blobs, limit, global_limit, now), other) == waiting_for(
            entries,
            other,
        ),
    decreases blobs.len(),
{
    if blobs.len() > 0 {
        let few = blobs.drop_last();
        lemma_waiting_leaves_others(entries, subscriber, few, limit, global_limit, now, other);
        crate::deferred_queue::law_what_enqueueing_does(
            with_waiting(entries, subscriber, few, limit, global_limit, now),
            Deferred { subscriber, channel: blobs.last().channel, blob: blobs.last().blob, enqueued_at: now },
            limit,
            global_limit,
            other,
        );
    }
}

} // verus!
