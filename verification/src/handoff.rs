//! What becomes of a delivery that was not confirmed.
//!
//! A delivery is confirmed by its proof. Where there is none the blob is
//! queued for the recipient's pull, and then the recipient is woken through
//! its relays so that it pulls. The queue comes first: a pull that comes before
//! the blob is queued would find nothing.
use vstd::prelude::*;
use crate::deferred_queue::{enqueued, Deferred, DeferredQueue};
use crate::notify::rns::{dispatch, is_wake, relay_of, RelayStack, WakeOutcome, WakeResult};
use crate::notify::{channel_view, of_channel, registration_views, NotifyRegistration, NotifyRegistry};
use crate::octets::{copied, copied_opt};
use crate::stream_registry::{dispatch_ended, push_possible, push_run, PushEvent, PushOutcome, PushState};

verus! {

/// What the proof of a delivery packet decides.
#[derive(Clone, Copy, Debug, PartialEq, Eq, Structural)]
pub enum PacketProof {
    /// Delivered only on the proof; handed off when the receipt times out.
    Required,
    /// Sent once and counted delivered; the proof is logged.
    Observed,
}

/// Observed until most devices run an application that proves.
pub const DELIVERY_PACKET_PROOF: PacketProof = PacketProof::Observed;

/// A recipient to whom a delivery was not confirmed.
#[derive(Clone, Debug, PartialEq, Eq)]
pub struct Unconfirmed {
    /// The queue that the recipient's pull drains.
    pub queue_key: Vec<u8>,
    /// The hash under which the recipient's relays are registered.
    pub wake_key: Vec<u8>,
}

/// What has happened to a delivery packet once it is sent: one receipt is out,
/// and every link has been tried.
pub open spec fn packet_sent() -> Seq<PushEvent> {
    seq![PushEvent::Receipt, PushEvent::DispatchDone]
}

proof fn lemma_packet_sent()
    ensures
        push_run(packet_sent()) == (PushState { pending: 1, any_sent: true, proved: false, handed_off: false }),
{
    reveal_with_fuel(push_run, 3);
    assert(packet_sent().drop_last() =~= seq![PushEvent::Receipt]);
    assert(seq![PushEvent::Receipt].drop_last() =~= Seq::empty());
}

/// The push that a delivery packet with a receipt is, where its proof decides:
/// one receipt is out, and every link has been tried. There is none where the
/// proof is only observed.
pub fn await_packet_proof(mode: PacketProof) -> (r: Option<PushOutcome>)
    ensures
        r is Some <==> mode == PacketProof::Required,
        r matches Some(push) ==> push@ == push_run(packet_sent()),
{
    match mode {
        PacketProof::Required => {
            let mut push: PushOutcome = PushOutcome::new();
            proof {
                lemma_packet_sent();
            }
            push.receipt_pending();
            push.dispatch_done();
            Some(push)
        },
        PacketProof::Observed => None,
    }
}

/// A packet whose proof decides is handed off exactly where its receipt times
/// out, and is proved exactly where its proof comes; whichever comes first,
/// nothing more happens to it.
pub proof fn law_unproven_packet_is_handed_off(more: Seq<PushEvent>)
    requires
        push_possible(packet_sent() + more),
    ensures
        more.len() <= 1,
        push_run(packet_sent() + more).pending == 1 - more.len(),
        push_run(packet_sent() + more).handed_off <==> more == seq![PushEvent::TimedOut],
        push_run(packet_sent() + more).proved <==> more == seq![PushEvent::Proved],
    decreases more.len(),
{
    lemma_packet_sent();
    let events = packet_sent() + more;
    if more.len() == 0 {
        assert(events =~= packet_sent());
    } else {
        let rest = more.drop_last();
        let before = packet_sent() + rest;
        assert(events.drop_last() =~= before);
        law_unproven_packet_is_handed_off(rest);
        assert(before[1] is DispatchDone);
        assert(dispatch_ended(before));
        assert(rest =~= Seq::empty());
        assert(before =~= packet_sent());
        assert(more =~= seq![more[0]]);
        assert(events.last() == more[0]);
        assert(seq![PushEvent::TimedOut][0] is TimedOut);
        assert(seq![PushEvent::Proved][0] is Proved);
    }
}

/// A copy of a registration.
fn copied_registration(r: &NotifyRegistration) -> (c: NotifyRegistration)
    ensures
        c@ == r@,
{
    NotifyRegistration {
        subscriber_hash: copied(r.subscriber_hash.as_slice()),
        channel_hash: copied_opt(&r.channel_hash),
        relay_hash: r.relay_hash.as_str().to_owned(),
        registered: r.registered,
    }
}

/// Copies of the registrations of a recipient for a channel, or for directly
/// addressed messages where none is given.
pub fn registrations_for(registry: &NotifyRegistry, wake_key: &[u8], wake_channel: Option<&[u8]>) -> (r: Vec<
    NotifyRegistration,
>)
    ensures
        registration_views(r@) == registry@.filter(of_channel(wake_key@, channel_view(wake_channel))),
{
    let found: Vec<&NotifyRegistration> = registry.get_for_channel(wake_key, wake_channel);
    let ghost all = found@.map_values(|x: &NotifyRegistration| x@);
    let mut out: Vec<NotifyRegistration> = Vec::new();
    let mut i: usize = 0;
    assert(registration_views(out@) =~= all.take(0));
    while i < found.len()
        invariant
            0 <= i <= found@.len(),
            all == found@.map_values(|x: &NotifyRegistration| x@),
            registration_views(out@) == all.take(i as int),
        decreases found@.len() - i,
    {
        let ghost was = registration_views(out@);
        let c: NotifyRegistration = copied_registration(found[i]);
        out.push(c);
        proof {
            assert(registration_views(out@) =~= was.push(c@));
            assert(all.take(i + 1) =~= all.take(i as int).push(all[i as int]));
        }
        i += 1;
    }
    assert(all.take(found@.len() as int) =~= all);
    out
}

/// Hands off a blob for a recipient: queues it under `routing_hash` for the
/// recipient's pull, and returns the registrations through which the
/// recipient is to be woken then.
pub fn defer_then_wake(
    queue: &mut DeferredQueue,
    registry: &NotifyRegistry,
    recipient: &Unconfirmed,
    limit: usize,
    routing_hash: &[u8],
    blob: &[u8],
    wake_channel: Option<&[u8]>,
    now: u64,
) -> (r: Vec<NotifyRegistration>)
    ensures
        final(queue).global_limit == old(queue).global_limit,
        final(queue)@ == enqueued(
            old(queue)@,
            Deferred {
                subscriber: recipient.queue_key@,
                channel: routing_hash@,
                blob: blob@,
                enqueued_at: now,
            },
            limit as nat,
            old(queue).global_limit as nat,
        ),
        registration_views(r@) == registry@.filter(of_channel(recipient.wake_key@, channel_view(wake_channel))),
{
    queue.enqueue(copied(recipient.queue_key.as_slice()), copied(routing_hash), copied(blob), limit, now);
    registrations_for(registry, recipient.wake_key.as_slice(), wake_channel)
}

/// The number of registrations of a list that name a relay.
pub open spec fn with_relay(regs: Seq<NotifyRegistration>) -> nat
    decreases regs.len(),
{
    if regs.len() == 0 {
        0
    } else {
        with_relay(regs.drop_last()) + (if relay_of(regs.last().relay_hash@) is Some {
            1nat
        } else {
            0nat
        })
    }
}

/// The number of wakes of a list that left.
pub open spec fn woken_of(outcomes: Seq<WakeResult>) -> nat
    decreases outcomes.len(),
{
    if outcomes.len() == 0 {
        0
    } else {
        woken_of(outcomes.drop_last()) + (if outcomes.last() is Sent {
            1nat
        } else {
            0nat
        })
    }
}

/// Whether waking a recipient through each of these registrations, in order,
/// comes to these outcomes by what the network answers.
pub open spec fn are_wakes<S: RelayStack + ?Sized>(
    stack: &S,
    regs: Seq<NotifyRegistration>,
    sender: Option<Seq<u8>>,
    channel: Option<Seq<u8>>,
    outcomes: Seq<WakeResult>,
) -> bool {
    &&& outcomes.len() == regs.len()
    &&& forall|i: int|
        0 <= i < regs.len() ==> #[trigger] is_wake(stack, regs[i], sender, channel, outcomes[i])
}

/// The contents of a list of outcomes.
pub open spec fn outcome_views(outcomes: Seq<WakeOutcome>) -> Seq<WakeResult> {
    outcomes.map_values(|o: WakeOutcome| o@)
}

/// Wakes a recipient through each of its registrations. Returns what became of
/// each wake, in order: one wake for each registration, which comes to what the
/// network answers.
pub fn wake_each<S: RelayStack + ?Sized>(
    stack: &S,
    registrations: &Vec<NotifyRegistration>,
    sender: Option<&[u8]>,
    channel: Option<&[u8]>,
) -> (r: Vec<WakeOutcome>)
    ensures
        are_wakes(stack, registrations@, channel_view(sender), channel_view(channel), outcome_views(r@)),
{
    let mut outcomes: Vec<WakeOutcome> = Vec::new();
    let mut i: usize = 0;
    while i < registrations.len()
        invariant
            0 <= i <= registrations@.len(),
            are_wakes(
                stack,
                registrations@.take(i as int),
                channel_view(sender),
                channel_view(channel),
                outcome_views(outcomes@),
            ),
        decreases registrations@.len() - i,
    {
        let ghost few = registrations@.take(i as int);
        let ghost before = outcome_views(outcomes@);
        let outcome: WakeOutcome = dispatch(stack, &registrations[i], sender, channel);
        outcomes.push(outcome);
        proof {
            let after = outcome_views(outcomes@);
            assert(after =~= before.push(outcome@));
            let more = registrations@.take(i + 1);
            assert forall|k: int| 0 <= k < more.len() implies #[trigger] is_wake(
                stack,
                more[k],
                channel_view(sender),
                channel_view(channel),
                after[k],
            ) by {
                if k < i {
                    assert(is_wake(stack, few[k], channel_view(sender), channel_view(channel), before[k]));
                }
            }
        }
        i += 1;
    }
    assert(registrations@.take(registrations@.len() as int) =~= registrations@);
    outcomes
}

/// The number of wakes of a list that left.
pub fn count_woken(outcomes: &Vec<WakeOutcome>) -> (r: usize)
    ensures
        r == woken_of(outcome_views(outcomes@)),
        r <= outcomes@.len(),
{
    let ghost all = outcome_views(outcomes@);
    let mut woken: usize = 0;
    let mut i: usize = 0;
    while i < outcomes.len()
        invariant
            0 <= i <= outcomes@.len(),
            all == outcome_views(outcomes@),
            woken == woken_of(all.take(i as int)),
            woken <= i,
        decreases outcomes@.len() - i,
    {
        proof {
            assert(all.take(i + 1).drop_last() =~= all.take(i as int));
            assert(all.take(i + 1).last() == outcomes@[i as int]@);
        }
        if outcomes[i].is_sent() {
            woken = woken + 1;
        }
        i += 1;
    }
    assert(all.take(all.len() as int) =~= all);
    woken
}

/// No wake leaves for a registration that names no relay.
pub proof fn law_woken_name_relays<S: RelayStack + ?Sized>(
    stack: &S,
    regs: Seq<NotifyRegistration>,
    sender: Option<Seq<u8>>,
    channel: Option<Seq<u8>>,
    outcomes: Seq<WakeResult>,
)
    requires
        are_wakes(stack, regs, sender, channel, outcomes),
    ensures
        woken_of(outcomes) <= with_relay(regs),
    decreases regs.len(),
{
    if regs.len() > 0 {
        let n = regs.len() - 1;
        let few = regs.drop_last();
        let some = outcomes.drop_last();
        assert(is_wake(stack, regs[n], sender, channel, outcomes[n]));
        assert forall|k: int| 0 <= k < few.len() implies #[trigger] is_wake(stack, few[k], sender, channel, some[k]) by {
            assert(is_wake(stack, regs[k], sender, channel, outcomes[k]));
        }
        law_woken_name_relays(stack, few, sender, channel, some);
    }
}

/// Wakes a recipient through each of its registrations. Returns through how
/// many: as many as there are wakes that left, of one wake for each
/// registration, each of which comes to what the network answers. Whatever that
/// is, none of these names no relay.
pub fn wake_all<S: RelayStack + ?Sized>(
    stack: &S,
    registrations: &Vec<NotifyRegistration>,
    sender: Option<&[u8]>,
    channel: Option<&[u8]>,
) -> (r: usize)
    ensures
        exists|outcomes: Seq<WakeResult>| #[trigger]
            are_wakes(stack, registrations@, channel_view(sender), channel_view(channel), outcomes) && r == woken_of(
                outcomes,
            ),
        r <= with_relay(registrations@),
        r <= registrations@.len(),
{
    let outcomes: Vec<WakeOutcome> = wake_each(stack, registrations, sender, channel);
    proof {
        law_woken_name_relays(
            stack,
            registrations@,
            channel_view(sender),
            channel_view(channel),
            outcome_views(outcomes@),
        );
    }
    count_woken(&outcomes)
}

/// The relays that were woken are counted one by one, and so are the
/// registrations that name a relay.
pub proof fn law_wakes_are_counted(
    a: Seq<WakeResult>,
    b: Seq<WakeResult>,
    x: WakeResult,
    c: Seq<NotifyRegistration>,
    d: Seq<NotifyRegistration>,
    y: NotifyRegistration,
)
    ensures
        woken_of(a + b) == woken_of(a) + woken_of(b),
        woken_of(seq![x]) == (if x is Sent {
            1nat
        } else {
            0nat
        }),
        woken_of(Seq::empty()) == 0,
        with_relay(c + d) == with_relay(c) + with_relay(d),
        with_relay(seq![y]) == (if relay_of(y.relay_hash@) is Some {
            1nat
        } else {
            0nat
        }),
        with_relay(Seq::empty()) == 0,
    decreases b.len() + d.len(),
{
    assert(seq![x].drop_last() =~= Seq::empty());
    assert(woken_of(seq![x].drop_last()) == 0);
    assert(seq![y].drop_last() =~= Seq::empty());
    assert(with_relay(seq![y].drop_last()) == 0);
    if b.len() == 0 {
        assert(a + b =~= a);
    } else {
        law_wakes_are_counted(a, b.drop_last(), x, c, d, y);
        assert((a + b).drop_last() =~= a + b.drop_last());
    }
    if d.len() == 0 {
        assert(c + d =~= c);
    } else {
        law_wakes_are_counted(a, b, x, c, d.drop_last(), y);
        assert((c + d).drop_last() =~= c + d.drop_last());
    }
}

} // verus!
