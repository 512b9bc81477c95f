//! What becomes of messages that come in: which route each takes, and who
//! hears of it at once.
use vstd::prelude::*;
use crate::blob_store::{
    aged, blob_added, due_for_age, full_text, in_the_way, name_views, names_of, with_room, BlobName, BlobStore, Room,
    StoreView,
};
use crate::digest::truncated_hash_of;
use crate::distro::{distro_message_id, is_distro_of, DistroTable};
use crate::handoff::registrations_for;
use crate::id_map::has_key;
use crate::lxmf_propagation::node::{Settings, DESTINATION_LENGTH};
use crate::notify::{of_channel, registration_views, NotifyRegistration, NotifyRegistry};
use crate::octets::{opt_view, slice_of};
use crate::stream_registry::StreamDispatchResult;

verus! {

/// The destination that a message is for: its first bytes, none where it is
/// too short.
pub open spec fn destination_of(lxmf_data: Seq<u8>) -> Seq<u8> {
    if lxmf_data.len() >= DESTINATION_LENGTH {
        lxmf_data.take(DESTINATION_LENGTH as int)
    } else {
        Seq::empty()
    }
}

/// The sender that a message names behind its destination, where it is long
/// enough.
pub open spec fn sender_of(lxmf_data: Seq<u8>) -> Option<Seq<u8>> {
    if lxmf_data.len() >= 2 * DESTINATION_LENGTH {
        Some(lxmf_data.subrange(DESTINATION_LENGTH as int, 2 * DESTINATION_LENGTH))
    } else {
        None
    }
}

/// The destination that a message is for, as [`destination_of`] says.
pub fn message_destination(lxmf_data: &[u8]) -> (r: Vec<u8>)
    ensures
        r@ == destination_of(lxmf_data@),
{
    if lxmf_data.len() >= DESTINATION_LENGTH {
        let d: Vec<u8> = slice_of(lxmf_data, 0, DESTINATION_LENGTH);
        assert(d@ =~= lxmf_data@.take(DESTINATION_LENGTH as int));
        d
    } else {
        Vec::new()
    }
}

/// The sender that a message names, as [`sender_of`] says.
pub fn message_sender(lxmf_data: &[u8]) -> (r: Option<Vec<u8>>)
    ensures
        opt_view(r) == sender_of(lxmf_data@),
{
    if lxmf_data.len() >= 2 * DESTINATION_LENGTH {
        Some(slice_of(lxmf_data, DESTINATION_LENGTH, 2 * DESTINATION_LENGTH))
    } else {
        None
    }
}

/// The least proof-of-work value that this node accepts of a message.
pub open spec fn least_stamp_value(settings: Settings) -> int {
    if settings.stamp_cost >= settings.stamp_flexibility {
        settings.stamp_cost - settings.stamp_flexibility
    } else {
        0
    }
}

impl Settings {
    /// The least proof-of-work value that this node accepts of a message.
    pub fn min_stamp_value(&self) -> (r: u32)
        ensures
            r == least_stamp_value(*self),
    {
        if self.stamp_cost >= self.stamp_flexibility {
            self.stamp_cost - self.stamp_flexibility
        } else {
            0
        }
    }
}

/// Whether a message is for a shared identity, whose messages are kept apart
/// and passed on to its devices.
pub fn goes_to_devices(devices: Option<&DistroTable>, lxmf_data: &[u8]) -> (r: bool)
    ensures
        r == (devices is Some && is_distro_of(devices->0@, destination_of(lxmf_data@))),
{
    match devices {
        Some(table) => table.is_distro(message_destination(lxmf_data).as_slice()),
        None => false,
    }
}

/// What is to be done with a message for a shared identity.
pub enum DistroIngest {
    /// It is held already: its devices have been told.
    AlreadyHeld,
    /// It is to be stored under this id and passed on.
    Store { message_id: Vec<u8>, evicted: Vec<BlobName> },
    /// There is no room to store it: it is passed on all the same.
    NoRoom { error: String, evicted: Vec<BlobName> },
}

/// What is to be done with a message for a shared identity: it is passed on the
/// first time it is seen, and room is made for it.
pub fn ingest_distro_blob(store: &mut BlobStore, lxmf_data: &[u8], now: u64) -> (r: DistroIngest)
    requires
        old(store).wf(),
    ensures
        final(store).wf(),
        r is AlreadyHeld <==> has_key(old(store)@.blobs, truncated_hash_of(lxmf_data@)),
        r is AlreadyHeld ==> final(store)@ == old(store)@,
        !(r is AlreadyHeld) ==> final(store)@ == with_room(old(store)@, lxmf_data@.len(), now),
        r matches DistroIngest::Store { message_id, evicted } ==> message_id@ == truncated_hash_of(lxmf_data@)
            && name_views(evicted@) == names_of(due_for_age(old(store)@, now)) + names_of(
            in_the_way(aged(old(store)@, now), lxmf_data@.len()),
        ) && final(store).used_bytes + lxmf_data@.len() <= old(store).storage_limit_bytes,
        r matches DistroIngest::NoRoom { error, evicted } ==> error@ == full_text(
            final(store).used_bytes,
            old(store).storage_limit_bytes,
        ) && name_views(evicted@) == names_of(due_for_age(old(store)@, now)) + names_of(
            in_the_way(aged(old(store)@, now), lxmf_data@.len()),
        ) && final(store).used_bytes + lxmf_data@.len() > old(store).storage_limit_bytes,
{
    let message_id: Vec<u8> = distro_message_id(lxmf_data);
    if store.contains(message_id.as_slice()) {
        return DistroIngest::AlreadyHeld;
    }
    let room: Room = store.make_room(lxmf_data.len() as u64, now);
    match room.refused {
        Some(error) => DistroIngest::NoRoom { error, evicted: room.evicted },
        None => DistroIngest::Store { message_id, evicted: room.evicted },
    }
}

/// A message for a shared identity that was stored is not passed on again.
pub proof fn law_devices_are_told_once(
    before: StoreView,
    after: StoreView,
    lxmf_data: Seq<u8>,
    destination_hash: Seq<u8>,
    received: u64,
    size: usize,
)
    requires
        blob_added(before, after, truncated_hash_of(lxmf_data), destination_hash, received, size),
    ensures
        has_key(after.blobs, truncated_hash_of(lxmf_data)),
{
    let id = truncated_hash_of(lxmf_data);
    if has_key(before.blobs, id) {
        let i = choose|i: int| 0 <= i < before.blobs.len() && (#[trigger] before.blobs[i]).0 == id;
        assert(after.blobs[i].0 == id);
    } else {
        assert(after.blobs[before.blobs.len() as int].0 == id);
    }
}

/// Who heard of a message at once.
#[derive(Clone, Copy, Debug, PartialEq, Eq, Structural)]
pub enum LiveDispatchOutcome {
    /// It went out on a link or a stream.
    Streamed,
    /// The recipient's relays are woken.
    Notified,
    /// Nobody.
    Nobody,
}

/// Where telling the recipient of a message stands.
#[derive(Clone, Copy, Debug, PartialEq, Eq, Structural)]
pub enum LiveStage {
    /// A bound link is to be tried.
    Link,
    /// A stream is to be tried.
    Stream,
    /// The recipient's relays are to be woken, where it has any.
    Notify,
    /// It is over.
    Done(LiveDispatchOutcome),
}

/// How telling the recipient of a message begins.
pub fn live_start(lxmf_data: &[u8]) -> (r: LiveStage)
    ensures
        r == (if lxmf_data@.len() < DESTINATION_LENGTH {
            LiveStage::Done(LiveDispatchOutcome::Nobody)
        } else {
            LiveStage::Link
        }),
{
    if lxmf_data.len() < DESTINATION_LENGTH {
        LiveStage::Done(LiveDispatchOutcome::Nobody)
    } else {
        LiveStage::Link
    }
}

/// The next stage once a link or a stream has been tried.
pub open spec fn live_next(stage: LiveStage, result: StreamDispatchResult) -> LiveStage {
    match stage {
        LiveStage::Link => if result.sent > 0 {
            LiveStage::Done(LiveDispatchOutcome::Streamed)
        } else {
            LiveStage::Stream
        },
        LiveStage::Stream => if result.sent > 0 {
            LiveStage::Done(LiveDispatchOutcome::Streamed)
        } else {
            LiveStage::Notify
        },
        _ => stage,
    }
}

/// The next stage once a link or a stream has been tried.
pub fn live_advance(stage: LiveStage, result: StreamDispatchResult) -> (r: LiveStage)
    ensures
        r == live_next(stage, result),
{
    match stage {
        LiveStage::Link => if result.delivered() {
            LiveStage::Done(LiveDispatchOutcome::Streamed)
        } else {
            LiveStage::Stream
        },
        LiveStage::Stream => if result.delivered() {
            LiveStage::Done(LiveDispatchOutcome::Streamed)
        } else {
            LiveStage::Notify
        },
        _ => stage,
    }
}

/// The registrations through which the recipient of a message is woken, and
/// what that comes to: those for directly addressed messages.
pub fn live_notify(registry: &NotifyRegistry, lxmf_data: &[u8]) -> (r: (LiveDispatchOutcome, Vec<NotifyRegistration>))
    ensures
        registration_views(r.1@) == registry@.filter(of_channel(destination_of(lxmf_data@), None)),
        r.0 == (if r.1@.len() > 0 {
            LiveDispatchOutcome::Notified
        } else {
            LiveDispatchOutcome::Nobody
        }),
{
    let dest: Vec<u8> = message_destination(lxmf_data);
    let regs: Vec<NotifyRegistration> = registrations_for(registry, dest.as_slice(), None);
    if regs.len() > 0 {
        (LiveDispatchOutcome::Notified, regs)
    } else {
        (LiveDispatchOutcome::Nobody, regs)
    }
}

/// A recipient hears of a message once: no relay is woken for a message that
/// went out on a link or a stream.
pub proof fn law_live_push_wakes_nobody(link: StreamDispatchResult, stream: StreamDispatchResult)
    ensures
        ({
            let end = live_next(live_next(LiveStage::Link, link), stream);
            (end == LiveStage::Notify) <==> link.sent == 0 && stream.sent == 0
        }),
{
}

/// How many messages of a batch went which way.
#[derive(Clone, Copy, Debug, PartialEq, Eq, Structural)]
pub struct BatchCount {
    pub stored: usize,
    pub streamed: usize,
    pub notified: usize,
}

impl BatchCount {
    /// Nothing has been counted.
    pub fn new() -> (r: Self)
        ensures
            r == (BatchCount { stored: 0, streamed: 0, notified: 0 }),
    {
        BatchCount { stored: 0, streamed: 0, notified: 0 }
    }

    /// Counts a message.
    pub fn note(&mut self, stored: bool, outcome: LiveDispatchOutcome)
        requires
            old(self).stored < usize::MAX,
            old(self).streamed < usize::MAX,
            old(self).notified < usize::MAX,
        ensures
            final(self).stored == old(self).stored + (if stored {
                1int
            } else {
                0
            }),
            final(self).streamed == old(self).streamed + (if outcome == LiveDispatchOutcome::Streamed {
                1int
            } else {
                0
            }),
            final(self).notified == old(self).notified + (if outcome == LiveDispatchOutcome::Notified {
                1int
            } else {
                0
            }),
    {
        if stored {
            self.stored = self.stored + 1;
        }
        match outcome {
            LiveDispatchOutcome::Streamed => {
                self.streamed = self.streamed + 1;
            },
            LiveDispatchOutcome::Notified => {
                self.notified = self.notified + 1;
            },
            LiveDispatchOutcome::Nobody => {},
        }
    }
}

/// A message begins with the hash that it is for and the hash of its sender. One
/// that is too short for these is for nobody, or from nobody.
pub proof fn law_message_names_recipient_and_sender(to: Seq<u8>, from: Seq<u8>, rest: Seq<u8>)
    requires
        to.len() == 16,
        from.len() == 16,
    ensures
        destination_of(to + from + rest) == to,
        sender_of(to + from + rest) == Some(from),
        rest.len() < 16 ==> sender_of(to + rest) is None && destination_of(rest).len() == 0,
{
    assert((to + from + rest).take(16) =~= to);
    assert((to + from + rest).subrange(16, 32) =~= from);
}

/// A stamp is accepted down to the cost less the slack, and any stamp where the
/// slack is larger.
pub proof fn law_least_stamp(settings: Settings)
    ensures
        least_stamp_value(settings) >= 0,
        least_stamp_value(settings) >= settings.stamp_cost - settings.stamp_flexibility,
        least_stamp_value(settings) == 0 || least_stamp_value(settings) + settings.stamp_flexibility
            == settings.stamp_cost,
{
}

/// A bound link is tried first, then a stream, and what took the message ends
/// it. Only where neither did are relays woken.
pub proof fn law_how_a_recipient_is_told(link: StreamDispatchResult, stream: StreamDispatchResult)
    ensures
        live_next(LiveStage::Link, link) == (if link.sent > 0 {
            LiveStage::Done(LiveDispatchOutcome::Streamed)
        } else {
            LiveStage::Stream
        }),
        live_next(LiveStage::Stream, stream) == (if stream.sent > 0 {
            LiveStage::Done(LiveDispatchOutcome::Streamed)
        } else {
            LiveStage::Notify
        }),
        live_next(LiveStage::Notify, stream) == LiveStage::Notify,
{
}

/// A message for a shared identity that is held already changes nothing, and one
/// that is not is stored where it fits once room was made.
pub proof fn law_message_of_an_identity_is_held_once(
    store: &mut crate::blob_store::BlobStore,
    lxmf_data: &[u8],
    now: u64,
    r: DistroIngest,
)
    requires
        call_ensures(ingest_distro_blob, (store, lxmf_data, now), r),
    ensures
        r is AlreadyHeld <==> exists|k: int|
            0 <= k < old(store)@.blobs.len() && (#[trigger] old(store)@.blobs[k]).0 == truncated_hash_of(lxmf_data@),
        r is AlreadyHeld ==> final(store)@ == old(store)@,
        r is Store ==> final(store).used_bytes + lxmf_data@.len() <= old(store).storage_limit_bytes,
        r is NoRoom ==> final(store).used_bytes + lxmf_data@.len() > old(store).storage_limit_bytes,
        r matches DistroIngest::Store { message_id, .. } ==> message_id@ == truncated_hash_of(lxmf_data@),
{
}

/// A message that names nobody reaches nobody, and any other is tried on a bound
/// link first.
pub proof fn law_how_telling_begins(lxmf_data: &[u8], r: LiveStage)
    requires
        call_ensures(live_start, (lxmf_data,), r),
    ensures
        lxmf_data@.len() < 16 ==> r == LiveStage::Done(LiveDispatchOutcome::Nobody),
        lxmf_data@.len() >= 16 ==> r == LiveStage::Link,
{
}

} // verus!
