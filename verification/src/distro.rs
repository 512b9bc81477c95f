//! Multi-device fan-out for a shared identity.
//!
//! Several devices may hold the key of one identity. A message for it is
//! passed on to every device that is registered for it.
use vstd::prelude::*;
use crate::deferred_queue::{enqueued, waiting_for, Deferred, DeferredQueue};
use crate::destinations::APP_NAME;
use crate::digest::{destination_hash, destination_hash_of, sha256, sha256_of, texts, truncated_hash, truncated_hash_of};
use crate::handoff::Unconfirmed;
use crate::lxmf_propagation::id_queue::IdQueue;
use crate::lxmf_propagation::node::{DELIVERY_ASPECT, LXMF_APP};
use crate::octets::{
    copied, copied_opt, distinct_of, joined, lemma_filter_ends, lemma_filter_step, opt_view, same_bytes, slice_of, views,
};
use crate::text::{decimal, decimal_text};

verus! {

/// The bytes of the ratchet key in an announce that carries one.
pub const RATCHET_LEN: usize = 32;

/// The bytes of an announce without ratchet and application data: public key,
/// name digest, random bytes, signature.
pub const ANNOUNCE_FIXED_LEN: usize = 148;

/// The bytes of the public keys of an identity.
pub const PUBLIC_KEY_LEN: usize = 64;

/// Blobs held for a device that cannot be reached.
pub const DISTRO_DEFERRED_QUEUE_LIMIT: usize = 256;

/// A device that is registered for a shared identity.
pub struct DistroEntry {
    /// Where messages for the shared identity are addressed.
    pub distro_lxmf_hash: Vec<u8>,
    /// Where messages for the device are addressed.
    pub device_lxmf_hash: Vec<u8>,
    /// The public keys of the device.
    pub device_pubkey: Vec<u8>,
    /// When it was registered.
    pub added: u64,
    /// The node that owns the entry, where it is held for another.
    pub owner_node_hash: Option<Vec<u8>>,
    /// When its owner last refreshed it.
    pub last_refreshed: u64,
}

/// What a [`DistroEntry`] holds.
pub struct Device {
    pub distro: Seq<u8>,
    pub device: Seq<u8>,
    pub pubkey: Seq<u8>,
    pub added: u64,
    pub owner: Option<Seq<u8>>,
    pub last_refreshed: u64,
}

impl View for DistroEntry {
    type V = Device;

    open spec fn view(&self) -> Device {
        Device {
            distro: self.distro_lxmf_hash@,
            device: self.device_lxmf_hash@,
            pubkey: self.device_pubkey@,
            added: self.added,
            owner: opt_view(self.owner_node_hash),
            last_refreshed: self.last_refreshed,
        }
    }
}

/// The contents of a list of devices.
pub open spec fn device_views(list: Seq<DistroEntry>) -> Seq<Device> {
    list.map_values(|e: DistroEntry| e@)
}

/// The contents of a list of devices.
pub open spec fn device_ref_views(list: Seq<&DistroEntry>) -> Seq<Device> {
    list.map_values(|e: &DistroEntry| e@)
}

/// The test that a device is registered for a shared identity.
pub open spec fn for_distro(distro: Seq<u8>) -> spec_fn(Device) -> bool {
    |d: Device| d.distro == distro
}

/// The test that a registration is not this one.
pub open spec fn is_other_device(distro: Seq<u8>, device: Seq<u8>) -> spec_fn(Device) -> bool {
    |d: Device| !(d.distro == distro && d.device == device)
}

/// Whether a device is registered for a shared identity.
pub open spec fn is_registered(devices: Seq<Device>, distro: Seq<u8>, device: Seq<u8>) -> bool {
    exists|i: int| 0 <= i < devices.len() && (#[trigger] devices[i]).distro == distro && devices[i].device == device
}

/// Whether any device is registered for a shared identity.
pub open spec fn is_distro_of(devices: Seq<Device>, distro: Seq<u8>) -> bool {
    exists|i: int| 0 <= i < devices.len() && (#[trigger] devices[i]).distro == distro
}

/// The devices after one was registered, unless it was.
pub open spec fn with_device(devices: Seq<Device>, distro: Seq<u8>, device: Seq<u8>, pubkey: Seq<u8>, now: u64) -> Seq<
    Device,
> {
    if is_registered(devices, distro, device) {
        devices
    } else {
        devices.push(Device { distro, device, pubkey, added: now, owner: None, last_refreshed: now })
    }
}

/// The shared identities of a list of devices.
pub open spec fn distros_of(devices: Seq<Device>) -> Seq<Seq<u8>> {
    devices.map_values(|d: Device| d.distro)
}

/// The registered devices of a node.
pub struct DistroTable {
    pub entries: Vec<DistroEntry>,
}

impl DistroTable {
    /// The devices, in the order in which they were registered.
    pub open spec fn view(&self) -> Seq<Device> {
        device_views(self.entries@)
    }

    /// The table of devices that were saved.
    pub fn load(entries: Vec<DistroEntry>) -> (r: Self)
        ensures
            r@ == device_views(entries@),
    {
        DistroTable { entries }
    }

    fn has(&self, distro_lxmf_hash: &[u8], device_lxmf_hash: &[u8]) -> (r: bool)
        ensures
            r == is_registered(self@, distro_lxmf_hash@, device_lxmf_hash@),
    {
        let mut i: usize = 0;
        while i < self.entries.len()
            invariant
                0 <= i <= self.entries@.len(),
                forall|j: int|
                    0 <= j < i ==> !((#[trigger] self@[j]).distro == distro_lxmf_hash@ && self@[j].device
                        == device_lxmf_hash@),
            decreases self.entries@.len() - i,
        {
            let e: &DistroEntry = &self.entries[i];
            assert(self@[i as int] == e@);
            if same_bytes(e.distro_lxmf_hash.as_slice(), distro_lxmf_hash) && same_bytes(
                e.device_lxmf_hash.as_slice(),
                device_lxmf_hash,
            ) {
                return true;
            }
            i += 1;
        }
        false
    }

    /// Registers a device for a shared identity unless it is. Says whether it
    /// is new.
    pub fn register(
        &mut self,
        distro_lxmf_hash: Vec<u8>,
        device_lxmf_hash: Vec<u8>,
        device_pubkey: Vec<u8>,
        now: u64,
    ) -> (r: bool)
        ensures
            r == !is_registered(old(self)@, distro_lxmf_hash@, device_lxmf_hash@),
            final(self)@ == with_device(old(self)@, distro_lxmf_hash@, device_lxmf_hash@, device_pubkey@, now),
    {
        if self.has(distro_lxmf_hash.as_slice(), device_lxmf_hash.as_slice()) {
            return false;
        }
        let ghost before = self@;
        let entry: DistroEntry = DistroEntry {
            distro_lxmf_hash,
            device_lxmf_hash,
            device_pubkey,
            added: now,
            owner_node_hash: None,
            last_refreshed: now,
        };
        self.entries.push(entry);
        assert(self@ =~= before.push(entry@));
        true
    }

    /// Ends a device's registration. Says whether there was one.
    pub fn unregister(&mut self, distro_lxmf_hash: &[u8], device_lxmf_hash: &[u8]) -> (r: bool)
        ensures
            final(self)@ == old(self)@.filter(is_other_device(distro_lxmf_hash@, device_lxmf_hash@)),
            r == (final(self)@.len() != old(self)@.len()),
    {
        let ghost all = self@;
        let ghost test = is_other_device(distro_lxmf_hash@, device_lxmf_hash@);
        let before: usize = self.entries.len();
        let mut given: Vec<DistroEntry> = Vec::new();
        std::mem::swap(&mut self.entries, &mut given);
        let ghost list = given@;
        let mut kept: Vec<DistroEntry> = Vec::new();
        proof {
            lemma_filter_ends(all, test);
            assert(device_views(kept@) =~= Seq::empty());
        }
        for e in it: given
            invariant
                it.seq() == list,
                all == device_views(list),
                test == is_other_device(distro_lxmf_hash@, device_lxmf_hash@),
                device_views(kept@) == all.take(it.index()).filter(test),
        {
            let ghost i = it.index();
            proof {
                lemma_filter_step(all, test, i);
                assert(all[i] == e@);
            }
            if !(same_bytes(e.distro_lxmf_hash.as_slice(), distro_lxmf_hash) && same_bytes(
                e.device_lxmf_hash.as_slice(),
                device_lxmf_hash,
            )) {
                let ghost was = device_views(kept@);
                let ghost ev = e@;
                kept.push(e);
                assert(device_views(kept@) =~= was.push(ev));
            }
        }
        proof {
            lemma_filter_ends(all, test);
        }
        self.entries = kept;
        self.entries.len() != before
    }

    /// The devices of a shared identity, in order.
    pub fn get_devices(&self, distro_lxmf_hash: &[u8]) -> (r: Vec<&DistroEntry>)
        ensures
            device_ref_views(r@) == self@.filter(for_distro(distro_lxmf_hash@)),
    {
        let ghost all = self@;
        let ghost test = for_distro(distro_lxmf_hash@);
        let mut out: Vec<&DistroEntry> = Vec::new();
        let mut i: usize = 0;
        proof {
            lemma_filter_ends(all, test);
            assert(device_ref_views(out@) =~= Seq::empty());
        }
        while i < self.entries.len()
            invariant
                0 <= i <= self.entries@.len(),
                all == self@,
                test == for_distro(distro_lxmf_hash@),
                device_ref_views(out@) == all.take(i as int).filter(test),
            decreases self.entries@.len() - i,
        {
            let e: &DistroEntry = &self.entries[i];
            proof {
                lemma_filter_step(all, test, i as int);
                assert(all[i as int] == e@);
            }
            if same_bytes(e.distro_lxmf_hash.as_slice(), distro_lxmf_hash) {
                let ghost was = device_ref_views(out@);
                out.push(e);
                assert(device_ref_views(out@) =~= was.push(e@));
            }
            i += 1;
        }
        proof {
            lemma_filter_ends(all, test);
        }
        out
    }

    /// Copies of the devices of a shared identity, in order.
    pub fn devices_snapshot(&self, distro_lxmf_hash: &[u8]) -> (r: Vec<DistroEntry>)
        ensures
            device_views(r@) == self@.filter(for_distro(distro_lxmf_hash@)),
    {
        let found: Vec<&DistroEntry> = self.get_devices(distro_lxmf_hash);
        let ghost all = device_ref_views(found@);
        let mut out: Vec<DistroEntry> = Vec::new();
        let mut i: usize = 0;
        assert(device_views(out@) =~= all.take(0));
        while i < found.len()
            invariant
                0 <= i <= found@.len(),
                all == device_ref_views(found@),
                device_views(out@) == all.take(i as int),
            decreases found@.len() - i,
        {
            let e: &DistroEntry = found[i];
            let ghost was = device_views(out@);
            let entry: DistroEntry = DistroEntry {
                distro_lxmf_hash: copied(e.distro_lxmf_hash.as_slice()),
                device_lxmf_hash: copied(e.device_lxmf_hash.as_slice()),
                device_pubkey: copied(e.device_pubkey.as_slice()),
                added: e.added,
                owner_node_hash: copied_opt(&e.owner_node_hash),
                last_refreshed: e.last_refreshed,
            };
            out.push(entry);
            proof {
                assert(entry@ == e@);
                assert(device_views(out@) =~= was.push(entry@));
                assert(all.take(i + 1) =~= all.take(i as int).push(all[i as int]));
            }
            i += 1;
        }
        assert(all.take(found@.len() as int) =~= all);
        out
    }

    /// Whether any device is registered for a shared identity.
    pub fn is_distro(&self, distro_lxmf_hash: &[u8]) -> (r: bool)
        ensures
            r == is_distro_of(self@, distro_lxmf_hash@),
    {
        let mut i: usize = 0;
        while i < self.entries.len()
            invariant
                0 <= i <= self.entries@.len(),
                forall|j: int| 0 <= j < i ==> (#[trigger] self@[j]).distro != distro_lxmf_hash@,
            decreases self.entries@.len() - i,
        {
            assert(self@[i as int] == self.entries@[i as int]@);
            if same_bytes(self.entries[i].distro_lxmf_hash.as_slice(), distro_lxmf_hash) {
                return true;
            }
            i += 1;
        }
        false
    }

    /// The shared identities that have a device here, each once.
    pub fn registered_distro_hashes(&self) -> (r: Vec<Vec<u8>>)
        ensures
            views(r@) == distinct_of(distros_of(self@)),
    {
        let ghost all = distros_of(self@);
        let mut seen: IdQueue = IdQueue::new();
        let mut i: usize = 0;
        assert(distinct_of(all.take(0)) =~= Seq::empty());
        while i < self.entries.len()
            invariant
                0 <= i <= self.entries@.len(),
                all == distros_of(self@),
                seen.wf(),
                seen@ == distinct_of(all.take(i as int)),
            decreases self.entries@.len() - i,
        {
            proof {
                assert(all.take(i + 1).drop_last() =~= all.take(i as int));
                assert(all.take(i + 1).last() == self.entries@[i as int].distro_lxmf_hash@);
            }
            seen.push_unique(copied(self.entries[i].distro_lxmf_hash.as_slice()));
            i += 1;
        }
        assert(all.take(all.len() as int) =~= all);
        seen.to_vec()
    }

    /// The number of registrations.
    pub fn len(&self) -> (r: usize)
        ensures
            r == self@.len(),
    {
        self.entries.len()
    }
}

/// A device that was registered is there once, however often it registers.
pub proof fn law_registering_is_idempotent(
    devices: Seq<Device>,
    distro: Seq<u8>,
    device: Seq<u8>,
    pubkey: Seq<u8>,
    again: Seq<u8>,
    now: u64,
    later: u64,
)
    ensures
        ({
            let once = with_device(devices, distro, device, pubkey, now);
            &&& is_registered(once, distro, device)
            &&& is_distro_of(once, distro)
            &&& with_device(once, distro, device, again, later) == once
        }),
{
    let once = with_device(devices, distro, device, pubkey, now);
    if is_registered(devices, distro, device) {
        let i = choose|i: int|
            0 <= i < devices.len() && (#[trigger] devices[i]).distro == distro && devices[i].device == device;
        assert(once[i].distro == distro);
    } else {
        assert(once[devices.len() as int].distro == distro);
    }
}

/// A signed announce of a shared identity, to be passed on as it is.
pub struct DistroAnnounce {
    /// The destination that it announces.
    pub distro_lxmf_hash: Vec<u8>,
    pub announce_data: Vec<u8>,
    /// Whether it carries a ratchet key.
    pub ratchet: bool,
    /// When it was submitted.
    pub updated: u64,
}

/// What a [`DistroAnnounce`] holds.
pub struct HeldAnnounce {
    pub distro: Seq<u8>,
    pub data: Seq<u8>,
    pub ratchet: bool,
    pub updated: u64,
}

impl View for DistroAnnounce {
    type V = HeldAnnounce;

    open spec fn view(&self) -> HeldAnnounce {
        HeldAnnounce {
            distro: self.distro_lxmf_hash@,
            data: self.announce_data@,
            ratchet: self.ratchet,
            updated: self.updated,
        }
    }
}

/// The contents of a list of announces.
pub open spec fn announce_views(list: Seq<DistroAnnounce>) -> Seq<HeldAnnounce> {
    list.map_values(|a: DistroAnnounce| a@)
}

/// The test that an announce is of another identity.
pub open spec fn of_other_distro(distro: Seq<u8>) -> spec_fn(HeldAnnounce) -> bool {
    |a: HeldAnnounce| a.distro != distro
}

/// The announces that a node passes on.
pub struct DistroAnnounceStore {
    pub entries: Vec<DistroAnnounce>,
}

impl DistroAnnounceStore {
    /// The announces, in the order in which they were submitted.
    pub open spec fn view(&self) -> Seq<HeldAnnounce> {
        announce_views(self.entries@)
    }

    /// The store of announces that were saved.
    pub fn load(entries: Vec<DistroAnnounce>) -> (r: Self)
        ensures
            r@ == announce_views(entries@),
    {
        DistroAnnounceStore { entries }
    }

    /// Drops the announce of an identity. Says whether there was one.
    pub fn remove(&mut self, distro_lxmf_hash: &[u8]) -> (r: bool)
        ensures
            final(self)@ == old(self)@.filter(of_other_distro(distro_lxmf_hash@)),
            r == (final(self)@.len() != old(self)@.len()),
    {
        let ghost all = self@;
        let ghost test = of_other_distro(distro_lxmf_hash@);
        let before: usize = self.entries.len();
        let mut given: Vec<DistroAnnounce> = Vec::new();
        std::mem::swap(&mut self.entries, &mut given);
        let ghost list = given@;
        let mut kept: Vec<DistroAnnounce> = Vec::new();
        proof {
            lemma_filter_ends(all, test);
            assert(announce_views(kept@) =~= Seq::empty());
        }
        for a in it: given
            invariant
                it.seq() == list,
                all == announce_views(list),
                test == of_other_distro(distro_lxmf_hash@),
                announce_views(kept@) == all.take(it.index()).filter(test),
        {
            let ghost i = it.index();
            proof {
                lemma_filter_step(all, test, i);
                assert(all[i] == a@);
            }
            if !same_bytes(a.distro_lxmf_hash.as_slice(), distro_lxmf_hash) {
                let ghost was = announce_views(kept@);
                let ghost av = a@;
                kept.push(a);
                assert(announce_views(kept@) =~= was.push(av));
            }
        }
        proof {
            lemma_filter_ends(all, test);
        }
        self.entries = kept;
        self.entries.len() != before
    }

    /// Holds an announce of an identity in the place of an earlier one.
    pub fn put(&mut self, distro_lxmf_hash: Vec<u8>, announce_data: Vec<u8>, ratchet: bool, now: u64)
        ensures
            final(self)@ == old(self)@.filter(of_other_distro(distro_lxmf_hash@)).push(
                HeldAnnounce { distro: distro_lxmf_hash@, data: announce_data@, ratchet, updated: now },
            ),
    {
        self.remove(distro_lxmf_hash.as_slice());
        let ghost before = self@;
        let held: DistroAnnounce = DistroAnnounce { distro_lxmf_hash, announce_data, ratchet, updated: now };
        self.entries.push(held);
        assert(self@ =~= before.push(held@));
    }

    /// The announce of an identity: the first there is.
    pub fn get(&self, distro_lxmf_hash: &[u8]) -> (r: Option<&DistroAnnounce>)
        ensures
            r is None ==> forall|i: int| 0 <= i < self@.len() ==> (#[trigger] self@[i]).distro != distro_lxmf_hash@,
            r matches Some(a) ==> exists|i: int| {
                &&& 0 <= i < self@.len()
                &&& a@ == #[trigger] self@[i]
                &&& a@.distro == distro_lxmf_hash@
                &&& forall|j: int| 0 <= j < i ==> (#[trigger] self@[j]).distro != distro_lxmf_hash@
            },
    {
        let mut i: usize = 0;
        while i < self.entries.len()
            invariant
                0 <= i <= self.entries@.len(),
                forall|j: int| 0 <= j < i ==> (#[trigger] self@[j]).distro != distro_lxmf_hash@,
            decreases self.entries@.len() - i,
        {
            assert(self@[i as int] == self.entries@[i as int]@);
            if same_bytes(self.entries[i].distro_lxmf_hash.as_slice(), distro_lxmf_hash) {
                return Some(&self.entries[i]);
            }
            i += 1;
        }
        None
    }

    /// Copies of all announces, in order.
    pub fn snapshot(&self) -> (r: Vec<DistroAnnounce>)
        ensures
            announce_views(r@) == self@,
    {
        let ghost all = self@;
        let mut out: Vec<DistroAnnounce> = Vec::new();
        let mut i: usize = 0;
        assert(announce_views(out@) =~= all.take(0));
        while i < self.entries.len()
            invariant
                0 <= i <= self.entries@.len(),
                all == self@,
                announce_views(out@) == all.take(i as int),
            decreases self.entries@.len() - i,
        {
            let a: &DistroAnnounce = &self.entries[i];
            let ghost was = announce_views(out@);
            let held: DistroAnnounce = DistroAnnounce {
                distro_lxmf_hash: copied(a.distro_lxmf_hash.as_slice()),
                announce_data: copied(a.announce_data.as_slice()),
                ratchet: a.ratchet,
                updated: a.updated,
            };
            out.push(held);
            proof {
                assert(held@ == a@);
                assert(announce_views(out@) =~= was.push(held@));
                assert(all.take(i + 1) =~= all.take(i as int).push(all[i as int]));
            }
            i += 1;
        }
        assert(all.take(all.len() as int) =~= all);
        out
    }

    /// The number of announces.
    pub fn len(&self) -> (r: usize)
        ensures
            r == self@.len(),
    {
        self.entries.len()
    }
}

/// A node holds no more than one announce of an identity, the latest.
pub proof fn law_latest_announce_wins(held: Seq<HeldAnnounce>, new: HeldAnnounce)
    ensures
        ({
            let after = held.filter(of_other_distro(new.distro)).push(new);
            forall|i: int| 0 <= i < after.len() && (#[trigger] after[i]).distro == new.distro ==> after[i] == new
        }),
{
    let rest = held.filter(of_other_distro(new.distro));
    crate::octets::lemma_filter_holds(held, of_other_distro(new.distro));
    let after = rest.push(new);
    assert forall|i: int| 0 <= i < after.len() && (#[trigger] after[i]).distro == new.distro implies after[i] == new by {
        if i < rest.len() {
            assert(rest.contains(rest[i]));
            assert(of_other_distro(new.distro)(rest[i]));
        }
    }
}

/// The ratchet flag and the announce of a distro announce value: the lowest
/// bit of the first byte, and the bytes behind it.
pub fn parse_distro_announce_payload(value: &[u8]) -> (r: Result<(bool, Vec<u8>), String>)
    ensures
        r is Err <==> value@.len() == 0,
        r matches Err(e) ==> e@ == "empty announce payload"@,
        r matches Ok(p) ==> p.0 == (value@[0] % 2 == 1) && p.1@ == value@.skip(1),
{
    if value.len() == 0 {
        return Err("empty announce payload".to_owned());
    }
    let flags: u8 = value[0];
    proof {
        assert((flags & 1 != 0) == (flags % 2 == 1)) by (bit_vector);
    }
    let rest: Vec<u8> = slice_of(value, 1, value.len());
    assert(rest@ =~= value@.skip(1));
    Ok((flags & 1 != 0, rest))
}

/// The identity hash of public keys.
pub open spec fn identity_hash_of(pubkey: Seq<u8>) -> Seq<u8> {
    truncated_hash_of(pubkey)
}

/// Where messages for the identity of these public keys are addressed.
pub open spec fn delivery_hash_of(pubkey: Seq<u8>) -> Seq<u8> {
    destination_hash_of(identity_hash_of(pubkey), LXMF_APP@, seq![DELIVERY_ASPECT@])
}

/// Where messages for the identity of these public keys are addressed.
pub fn lxmf_delivery_hash_from_pubkey(pubkey: &[u8]) -> (r: Vec<u8>)
    ensures
        r@ == delivery_hash_of(pubkey@),
{
    let identity: Vec<u8> = truncated_hash(pubkey);
    let aspects: [&str; 1] = [DELIVERY_ASPECT];
    let hash: Vec<u8> = destination_hash(identity.as_slice(), LXMF_APP, &aspects);
    assert(texts(aspects@) =~= seq![DELIVERY_ASPECT@]);
    hash
}

/// The id under which a message for a shared identity is stored: the same on
/// every node.
pub fn distro_message_id(lxmf_data: &[u8]) -> (r: Vec<u8>)
    ensures
        r@ == truncated_hash_of(lxmf_data@),
        r@.len() == 16,
{
    truncated_hash(lxmf_data)
}

/// The parts of an announce, once they are found: the destination that it is
/// for, its signature, and what the signature is of.
pub struct SignedAnnounce {
    pub destination_hash: Vec<u8>,
    /// Whether the announce names the aspect under which messages are
    /// received.
    pub names_delivery: bool,
    pub signature: Vec<u8>,
    pub signed_data: Vec<u8>,
}

/// The bytes of the ratchet key in an announce.
pub open spec fn ratchet_len(ratchet: bool) -> int {
    if ratchet {
        RATCHET_LEN as int
    } else {
        0
    }
}

/// The name digest of the aspect under which messages are received.
pub open spec fn delivery_name_hash() -> Seq<u8> {
    sha256_of(
        vstd::utf8::encode_utf8(crate::digest::dotted_name(LXMF_APP@, seq![DELIVERY_ASPECT@])),
    ).take(crate::digest::NAME_HASH_LEN as int)
}

/// What the signature of an announce is of: the destination, the public keys,
/// the name digest, the random bytes, the ratchet key and the application
/// data.
pub open spec fn announce_signed_data(data: Seq<u8>, ratchet: bool) -> Seq<u8> {
    let sig = 84 + ratchet_len(ratchet);
    delivery_hash_of(data.take(PUBLIC_KEY_LEN as int)) + data.take(sig) + data.skip(sig + 64)
}

/// The text of the error for an announce that is too short.
pub open spec fn short_text(len: nat, least: int) -> Seq<char> {
    "announce_data len "@ + decimal_text(len) + " < minimum "@ + decimal_text(least as nat)
}

/// Finds the parts of an announce of the identity with these public keys. It
/// is refused where it is too short or of another identity.
pub fn open_distro_announce(announce_data: &[u8], ratchet: bool, expected_distro_pubkey: &[u8]) -> (r: Result<
    SignedAnnounce,
    String,
>)
    ensures
        ({
            let least = ANNOUNCE_FIXED_LEN + ratchet_len(ratchet);
            let sig = 84 + ratchet_len(ratchet);
            &&& announce_data@.len() < least ==> (r matches Err(e) && e@ == short_text(announce_data@.len(), least))
            &&& announce_data@.len() >= least && announce_data@.take(PUBLIC_KEY_LEN as int) != expected_distro_pubkey@
                ==> (r matches Err(e) && e@ == "announce public key does not match the registering distro key"@)
            &&& announce_data@.len() >= least && announce_data@.take(PUBLIC_KEY_LEN as int) == expected_distro_pubkey@
                ==> (r matches Ok(a) && a.destination_hash@ == delivery_hash_of(expected_distro_pubkey@)
                && a.names_delivery == (announce_data@.subrange(64, 74) == delivery_name_hash()) && a.signature@
                == announce_data@.subrange(sig, sig + 64) && a.signed_data@ == announce_signed_data(
                announce_data@,
                ratchet,
            ))
        }),
{
    let extra: usize = if ratchet {
        RATCHET_LEN
    } else {
        0
    };
    let least: usize = ANNOUNCE_FIXED_LEN + extra;
    if announce_data.len() < least {
        let head: String = "announce_data len ".to_owned();
        return Err(
            head.concat(decimal(announce_data.len() as u64).as_str()).concat(" < minimum ").concat(
                decimal(least as u64).as_str(),
            ),
        );
    }
    let public_key: Vec<u8> = slice_of(announce_data, 0, PUBLIC_KEY_LEN);
    assert(public_key@ =~= announce_data@.take(PUBLIC_KEY_LEN as int));
    if !same_bytes(public_key.as_slice(), expected_distro_pubkey) {
        return Err("announce public key does not match the registering distro key".to_owned());
    }
    let sig: usize = 84 + extra;
    let hash: Vec<u8> = lxmf_delivery_hash_from_pubkey(public_key.as_slice());
    let aspects: [&str; 1] = [DELIVERY_ASPECT];
    let name: String = crate::digest::join_name(LXMF_APP, &aspects);
    assert(texts(aspects@) =~= seq![DELIVERY_ASPECT@]);
    let full: Vec<u8> = sha256(name.as_str().as_bytes());
    let expected: Vec<u8> = slice_of(full.as_slice(), 0, crate::digest::NAME_HASH_LEN);
    assert(expected@ =~= delivery_name_hash());
    let named: Vec<u8> = slice_of(announce_data, 64, 74);
    let before: Vec<u8> = slice_of(announce_data, 0, sig);
    let behind: Vec<u8> = slice_of(announce_data, sig + 64, announce_data.len());
    let signed_data: Vec<u8> = joined(joined(hash.as_slice(), before.as_slice()).as_slice(), behind.as_slice());
    proof {
        assert(before@ =~= announce_data@.take(sig as int));
        assert(behind@ =~= announce_data@.skip(sig + 64));
        assert(signed_data@ =~= announce_signed_data(announce_data@, ratchet));
    }
    Ok(
        SignedAnnounce {
            destination_hash: hash,
            names_delivery: same_bytes(named.as_slice(), expected.as_slice()),
            signature: slice_of(announce_data, sig, sig + 64),
            signed_data,
        },
    )
}

/// Judges an announce whose parts were found, once its keys and its signature
/// were looked at: the destination that it is for, where the keys are valid,
/// it is for receiving messages, and the signature holds.
pub fn verify_distro_announce(announce: SignedAnnounce, key: Result<(), String>, signature_holds: bool) -> (r: Result<
    Vec<u8>,
    String,
>)
    ensures
        r is Ok <==> key is Ok && announce.names_delivery && signature_holds,
        r matches Ok(hash) ==> hash == announce.destination_hash,
        key matches Err(e) ==> (r matches Err(text) && text@ == "distro pubkey invalid: "@ + e@),
        key is Ok && !announce.names_delivery ==> (r matches Err(text) && text@
            == "announce name_hash is not lxmf.delivery"@),
        key is Ok && announce.names_delivery && !signature_holds ==> (r matches Err(text) && text@
            == "announce signature verification failed"@),
{
    if let Err(e) = key {
        let head: String = "distro pubkey invalid: ".to_owned();
        return Err(head.concat(e.as_str()));
    }
    if !announce.names_delivery {
        return Err("announce name_hash is not lxmf.delivery".to_owned());
    }
    if !signature_holds {
        return Err("announce signature verification failed".to_owned());
    }
    Ok(announce.destination_hash)
}

/// The public keys and the destination of a held announce, with which it is
/// passed on.
pub fn replay_target(announce: &DistroAnnounce) -> (r: Result<(Vec<u8>, Vec<u8>), String>)
    ensures
        r is Err <==> announce.announce_data@.len() < PUBLIC_KEY_LEN,
        r matches Err(e) ==> e@ == "stored announce too short"@,
        r matches Ok(t) ==> t.0@ == announce.announce_data@.take(PUBLIC_KEY_LEN as int) && t.1@ == delivery_hash_of(
            announce.announce_data@.take(PUBLIC_KEY_LEN as int),
        ),
{
    if announce.announce_data.len() < PUBLIC_KEY_LEN {
        return Err("stored announce too short".to_owned());
    }
    let key: Vec<u8> = slice_of(announce.announce_data.as_slice(), 0, PUBLIC_KEY_LEN);
    assert(key@ =~= announce.announce_data@.take(PUBLIC_KEY_LEN as int));
    let hash: Vec<u8> = lxmf_delivery_hash_from_pubkey(key.as_slice());
    Ok((key, hash))
}

/// What is left to do for a device that a message is for.
pub enum DevicePlan {
    /// It has the message: this is the hash to report it under.
    Delivered(Vec<u8>),
    /// It cannot be reached: the message waits for it.
    Missed(Unconfirmed),
    /// The payload is to be sent to the device's identity. Where that fails,
    /// the message waits for the device.
    Send {
        recipient: Unconfirmed,
        destination_hash: Vec<u8>,
        payload: Vec<u8>,
    },
}

/// Whether a message for a device waits, and its relays are found, under these
/// hashes: it waits under the device's identity, or where its keys are not
/// valid under its address, and the relays are registered under its address.
pub open spec fn is_device(u: Unconfirmed, entry: DistroEntry, key_is_valid: bool) -> bool {
    &&& u.queue_key@ == (if key_is_valid {
        identity_hash_of(entry.device_pubkey@)
    } else {
        entry.device_lxmf_hash@
    })
    &&& u.wake_key@ == entry.device_lxmf_hash@
}

/// What is to be done for a device: nothing more where it took the message on
/// a live stream; the message waits where the keys of the device are not
/// valid; and otherwise it is sent, behind the hash of the shared identity.
pub fn plan_device(entry: &DistroEntry, distro_lxmf_hash: &[u8], lxmf_blob: &[u8], streamed: bool, key_is_valid: bool) -> (r:
    DevicePlan)
    ensures
        streamed ==> (r matches DevicePlan::Delivered(h) && h@ == entry.device_lxmf_hash@),
        !streamed && !key_is_valid ==> (r matches DevicePlan::Missed(u) && is_device(u, *entry, false)),
        !streamed && key_is_valid ==> (r matches DevicePlan::Send { recipient, destination_hash, payload } && is_device(
            recipient,
            *entry,
            true,
        ) && destination_hash@ == destination_hash_of(
            identity_hash_of(entry.device_pubkey@),
            APP_NAME@,
            seq![DELIVERY_ASPECT@],
        ) && payload@ == distro_lxmf_hash@ + lxmf_blob@),
{
    if streamed {
        return DevicePlan::Delivered(copied(entry.device_lxmf_hash.as_slice()));
    }
    if !key_is_valid {
        return DevicePlan::Missed(
            Unconfirmed {
                queue_key: copied(entry.device_lxmf_hash.as_slice()),
                wake_key: copied(entry.device_lxmf_hash.as_slice()),
            },
        );
    }
    let identity_hash: Vec<u8> = truncated_hash(entry.device_pubkey.as_slice());
    let aspects: [&str; 1] = [DELIVERY_ASPECT];
    let hash: Vec<u8> = destination_hash(identity_hash.as_slice(), APP_NAME, &aspects);
    assert(texts(aspects@) =~= seq![DELIVERY_ASPECT@]);
    DevicePlan::Send {
        recipient: Unconfirmed { queue_key: identity_hash, wake_key: copied(entry.device_lxmf_hash.as_slice()) },
        destination_hash: hash,
        payload: joined(distro_lxmf_hash, lxmf_blob),
    }
}

/// What became of a packet.
#[derive(Clone, Copy, Debug, PartialEq, Eq, Structural)]
pub enum Sending {
    /// There is no path to the destination.
    NoPath,
    /// The packet could not be sent.
    Failed,
    /// There is a path, and no interface to send the packet on.
    NoInterface,
    /// The packet went out.
    Sent,
}

/// What became of a message for a device.
pub struct DeviceEnd {
    /// Whether the device was sent the message.
    pub delivered: bool,
    /// The device: its delivery is reported, or the message waits, under the
    /// hash of its queue.
    pub recipient: Unconfirmed,
    /// Whether a path to the device is to be asked for.
    pub request_path: bool,
}

/// What became of a message for a device, given what became of its packet. A
/// path is asked for where there is one that cannot be used.
pub fn conclude_device(recipient: Unconfirmed, sending: Sending) -> (r: DeviceEnd)
    ensures
        r.recipient == recipient,
        r.delivered == (sending == Sending::Sent),
        r.request_path == (sending == Sending::NoInterface),
{
    DeviceEnd {
        delivered: matches!(sending, Sending::Sent),
        recipient,
        request_path: matches!(sending, Sending::NoInterface),
    }
}

/// The devices that missed a message.
pub open spec fn missed_of(ends: Seq<DeviceEnd>) -> Seq<Unconfirmed>
    decreases ends.len(),
{
    if ends.len() == 0 {
        Seq::empty()
    } else if ends.last().delivered {
        missed_of(ends.drop_last())
    } else {
        missed_of(ends.drop_last()).push(ends.last().recipient)
    }
}

/// The devices that missed a message, in order.
pub fn missed(ends: Vec<DeviceEnd>) -> (r: Vec<Unconfirmed>)
    ensures
        r@ == missed_of(ends@),
{
    let ghost all = ends@;
    let mut out: Vec<Unconfirmed> = Vec::new();
    for end in it: ends
        invariant
            it.seq() == all,
            out@ == missed_of(all.take(it.index() as int)),
    {
        assert(all.take(it.index() + 1).drop_last() =~= all.take(it.index() as int));
        if !end.delivered {
            out.push(end.recipient);
        }
    }
    assert(all.take(all.len() as int) =~= all);
    out
}

/// The hashes under which something waits for a list of recipients.
pub open spec fn queue_keys_of(list: Seq<Unconfirmed>) -> Seq<Seq<u8>> {
    list.map_values(|u: Unconfirmed| u.queue_key@)
}

/// The hashes under which something waits for a list of recipients, in order.
pub fn queue_keys(list: &Vec<Unconfirmed>) -> (r: Vec<Vec<u8>>)
    ensures
        views(r@) == queue_keys_of(list@),
{
    let mut out: Vec<Vec<u8>> = Vec::new();
    let mut i: usize = 0;
    while i < list.len()
        invariant
            0 <= i <= list@.len(),
            out@.len() == i,
            forall|j: int| 0 <= j < i ==> (#[trigger] out@[j])@ == list@[j].queue_key@,
        decreases list@.len() - i,
    {
        out.push(copied(list[i].queue_key.as_slice()));
        i += 1;
    }
    assert(views(out@) =~= queue_keys_of(list@));
    out
}

/// What waits once a message waits for each of a list of devices.
pub open spec fn with_misses(entries: Seq<Deferred>, missed: Seq<Seq<u8>>, distro: Seq<u8>, blob: Seq<u8>, now: u64, global_limit: nat) -> Seq<
    Deferred,
>
    decreases missed.len(),
{
    if missed.len() == 0 {
        entries
    } else {
        enqueued(
            with_misses(entries, missed.drop_last(), distro, blob, now, global_limit),
            Deferred { subscriber: missed.last(), channel: distro, blob, enqueued_at: now },
            DISTRO_DEFERRED_QUEUE_LIMIT as nat,
            global_limit,
        )
    }
}

/// Where the queue has room for all of them, a message waits for every device of
/// a list that missed it.
pub proof fn law_message_waits_for_every_missed_device(
    entries: Seq<Deferred>,
    missed: Seq<Seq<u8>>,
    distro: Seq<u8>,
    blob: Seq<u8>,
    now: u64,
    global_limit: nat,
    i: int,
)
    requires
        entries.len() + missed.len() <= global_limit,
        0 <= i < missed.len(),
    ensures
        waiting_for(with_misses(entries, missed, distro, blob, now, global_limit), missed[i]).contains(
            Deferred { subscriber: missed[i], channel: distro, blob, enqueued_at: now },
        ),
        with_misses(entries, missed, distro, blob, now, global_limit).len() <= entries.len() + missed.len(),
    decreases missed.len(),
{
    let few = missed.drop_last();
    let last = missed.last();
    let before = with_misses(entries, few, distro, blob, now, global_limit);
    let e = Deferred { subscriber: last, channel: distro, blob, enqueued_at: now };
    lemma_misses_len(entries, few, distro, blob, now, global_limit);
    crate::deferred_queue::lemma_one_more_waits(before, e, DISTRO_DEFERRED_QUEUE_LIMIT as nat, global_limit, missed[i]);
    if missed[i] == last {
        let mine = waiting_for(enqueued(before, e, DISTRO_DEFERRED_QUEUE_LIMIT as nat, global_limit), last);
        assert(mine[mine.len() - 1] == e);
    } else {
        assert(few[i] == missed[i]);
        law_message_waits_for_every_missed_device(entries, few, distro, blob, now, global_limit, i);
    }
}

proof fn lemma_misses_len(entries: Seq<Deferred>, missed: Seq<Seq<u8>>, distro: Seq<u8>, blob: Seq<u8>, now: u64, global_limit: nat)
    requires
        entries.len() + missed.len() <= global_limit,
    ensures
        with_misses(entries, missed, distro, blob, now, global_limit).len() <= entries.len() + missed.len(),
    decreases missed.len(),
{
    if missed.len() > 0 {
        let few = missed.drop_last();
        let e = Deferred { subscriber: missed.last(), channel: distro, blob, enqueued_at: now };
        lemma_misses_len(entries, few, distro, blob, now, global_limit);
        crate::deferred_queue::lemma_one_more_waits(
            with_misses(entries, few, distro, blob, now, global_limit),
            e,
            DISTRO_DEFERRED_QUEUE_LIMIT as nat,
            global_limit,
            missed.last(),
        );
    }
}

/// Of several devices, none of them twice in the list, each has the message once
/// more behind what waited for it, of which the oldest is gone where 256 blobs
/// waited. What waits for anyone else stays as it is.
pub proof fn law_each_missed_device_has_it_once_more(
    entries: Seq<Deferred>,
    missed: Seq<Seq<u8>>,
    distro: Seq<u8>,
    blob: Seq<u8>,
    now: u64,
    global_limit: nat,
    device: Seq<u8>,
)
    requires
        entries.len() + missed.len() <= global_limit,
        missed.no_duplicates(),
    ensures
        ({
            let before = waiting_for(entries, device);
            let after = waiting_for(with_misses(entries, missed, distro, blob, now, global_limit), device);
            let e = Deferred { subscriber: device, channel: distro, blob, enqueued_at: now };
            &&& !missed.contains(device) ==> after == before
            &&& missed.contains(device) && before.len() < 256 ==> after == before.push(e)
            &&& missed.contains(device) && before.len() >= 256 ==> after == before.skip(1).push(e)
        }),
    decreases missed.len(),
{
    if missed.len() > 0 {
        let few = missed.drop_last();
        let last = missed.last();
        let e = Deferred { subscriber: last, channel: distro, blob, enqueued_at: now };
        law_each_missed_device_has_it_once_more(entries, few, distro, blob, now, global_limit, device);
        lemma_misses_len(entries, few, distro, blob, now, global_limit);
        crate::deferred_queue::lemma_one_more_waits(
            with_misses(entries, few, distro, blob, now, global_limit),
            e,
            DISTRO_DEFERRED_QUEUE_LIMIT as nat,
            global_limit,
            device,
        );
        assert(missed.contains(device) <==> few.contains(device) || device == last) by {
            if missed.contains(device) {
                let k = missed.index_of(device);
                if k < few.len() {
                    assert(few[k] == device);
                }
            }
            if few.contains(device) {
                let k = few.index_of(device);
                assert(missed[k] == device);
            }
            if device == last {
                assert(missed[missed.len() - 1] == device);
            }
        }
        if few.contains(device) {
            let k = few.index_of(device);
            assert(missed[k] == device);
            assert(device != last);
        }
    }
}

/// Lets a message wait for each of a list of devices.
pub fn enqueue_distro_misses(
    queue: &mut DeferredQueue,
    missed: &Vec<Vec<u8>>,
    distro_hash: &[u8],
    lxmf_data: &[u8],
    now: u64,
)
    ensures
        final(queue).global_limit == old(queue).global_limit,
        final(queue)@ == with_misses(
            old(queue)@,
            views(missed@),
            distro_hash@,
            lxmf_data@,
            now,
            old(queue).global_limit as nat,
        ),
{
    let ghost all = views(missed@);
    let mut i: usize = 0;
    while i < missed.len()
        invariant
            0 <= i <= missed@.len(),
            all == views(missed@),
            queue.global_limit == old(queue).global_limit,
            queue@ == with_misses(
                old(queue)@,
                all.take(i as int),
                distro_hash@,
                lxmf_data@,
                now,
                old(queue).global_limit as nat,
            ),
        decreases missed@.len() - i,
    {
        proof {
            assert(all.take(i + 1).drop_last() =~= all.take(i as int));
            assert(all.take(i + 1).last() == missed@[i as int]@);
        }
        queue.enqueue(
            copied(missed[i].as_slice()),
            copied(distro_hash),
            copied(lxmf_data),
            DISTRO_DEFERRED_QUEUE_LIMIT,
            now,
        );
        i += 1;
    }
    assert(all.take(all.len() as int) =~= all);
}

/// A device that was not registered for an identity is there afterwards, behind
/// those that were, with the key it came with, and stays until its end. One
/// that was stays as it is.
pub proof fn law_registering_adds_the_device(
    devices: Seq<Device>,
    distro: Seq<u8>,
    device: Seq<u8>,
    pubkey: Seq<u8>,
    now: u64,
)
    ensures
        (exists|i: int| 0 <= i < devices.len() && (#[trigger] devices[i]).distro == distro && devices[i].device == device)
            ==> with_device(devices, distro, device, pubkey, now) == devices,
        (forall|i: int|
            0 <= i < devices.len() ==> !((#[trigger] devices[i]).distro == distro && devices[i].device == device)) ==> {
            let after = with_device(devices, distro, device, pubkey, now);
            &&& after.len() == devices.len() + 1
            &&& after.drop_last() == devices
            &&& after.last().distro == distro
            &&& after.last().device == device
            &&& after.last().pubkey == pubkey
            &&& after.last().added == now
            &&& after.last().last_refreshed == now
            &&& after.last().owner is None
        },
{
    if forall|i: int|
        0 <= i < devices.len() ==> !((#[trigger] devices[i]).distro == distro && devices[i].device == device) {
        assert(!is_registered(devices, distro, device));
        assert(with_device(devices, distro, device, pubkey, now).drop_last() =~= devices);
    }
}

/// The end of a registration ends that of one device for one identity, and no
/// other.
pub proof fn law_unregistering_ends_one(devices: Seq<Device>, distro: Seq<u8>, device: Seq<u8>, d: Device)
    ensures
        devices.filter(is_other_device(distro, device)).contains(d) <==> devices.contains(d) && (d.distro != distro
            || d.device != device),
{
    crate::octets::lemma_filter_holds(devices, is_other_device(distro, device));
}

/// A message for an identity goes to the devices that are registered for it, to
/// each of them, and to no other.
pub proof fn law_every_device_of_the_identity(devices: Seq<Device>, distro: Seq<u8>, d: Device)
    ensures
        devices.filter(for_distro(distro)).contains(d) <==> devices.contains(d) && d.distro == distro,
        is_distro_of(devices, distro) <==> exists|x: Device| #[trigger] devices.contains(x) && x.distro == distro,
{
    crate::octets::lemma_filter_holds(devices, for_distro(distro));
    if is_distro_of(devices, distro) {
        let i = choose|i: int| 0 <= i < devices.len() && (#[trigger] devices[i]).distro == distro;
        assert(devices.contains(devices[i]));
    }
    if exists|x: Device| #[trigger] devices.contains(x) && x.distro == distro {
        let x = choose|x: Device| #[trigger] devices.contains(x) && x.distro == distro;
        assert(devices[devices.index_of(x)].distro == distro);
    }
}

/// A device missed a message exactly where it was not sent it. The devices that
/// missed it are listed in their order, each as often as it missed.
pub proof fn law_missed_are_those_not_sent(a: Seq<DeviceEnd>, b: Seq<DeviceEnd>, e: DeviceEnd)
    ensures
        missed_of(a + b) == missed_of(a) + missed_of(b),
        !e.delivered ==> missed_of(seq![e]) == seq![e.recipient],
        e.delivered ==> missed_of(seq![e]).len() == 0,
        missed_of(Seq::empty()).len() == 0,
    decreases b.len(),
{
    assert(seq![e].drop_last() =~= Seq::empty());
    assert(missed_of(seq![e].drop_last()) =~= Seq::empty());
    if b.len() == 0 {
        assert(a + b =~= a);
        assert(missed_of(a) + missed_of(b) =~= missed_of(a));
    } else {
        law_missed_are_those_not_sent(a, b.drop_last(), e);
        assert((a + b).drop_last() =~= a + b.drop_last());
        assert(missed_of(a + b) =~= missed_of(a) + missed_of(b));
    }
}

/// An announce is made of the public keys, the digest of the name, random
/// bytes, the ratchet where it carries one, the signature, and further data.
/// What is signed is the hash under which messages are received, and behind it
/// all but the signature.
pub proof fn law_signature_covers_the_announce(
    keys: Seq<u8>,
    name: Seq<u8>,
    random: Seq<u8>,
    ratchet: Seq<u8>,
    signature: Seq<u8>,
    data: Seq<u8>,
)
    requires
        keys.len() == 64,
        name.len() == 10,
        random.len() == 10,
        ratchet.len() == 0 || ratchet.len() == 32,
        signature.len() == 64,
    ensures
        announce_signed_data(keys + name + random + ratchet + signature + data, ratchet.len() == 32)
            == delivery_hash_of(keys) + keys + name + random + ratchet + data,
{
    let all = keys + name + random + ratchet + signature + data;
    let sig = 84 + ratchet.len() as int;
    assert(all.take(64) =~= keys);
    assert(all.take(sig) =~= keys + name + random + ratchet);
    assert(all.skip(sig + 64) =~= data);
    assert(announce_signed_data(all, ratchet.len() == 32) =~= delivery_hash_of(keys) + keys + name + random + ratchet
        + data);
}

/// A new announce of an identity takes the place of the one that was held, and
/// those of the others stay, in their order.
pub proof fn law_other_announces_stay(held: Seq<HeldAnnounce>, new: HeldAnnounce, other: spec_fn(HeldAnnounce) -> bool)
    requires
        forall|a: HeldAnnounce| #[trigger] other(a) <==> a.distro != new.distro,
    ensures
        held.filter(of_other_distro(new.distro)) == held.filter(other),
{
    crate::octets::lemma_filter_agree(held, other, of_other_distro(new.distro));
}

/// What is held for a device that missed a message is held under the identity
/// hash of its keys, or under its own hash where these are no keys. It is woken
/// under its own hash.
pub proof fn law_where_a_device_finds_it(u: Unconfirmed, entry: DistroEntry, key_is_valid: bool)
    ensures
        is_device(u, entry, key_is_valid) ==> u.wake_key@ == entry.device_lxmf_hash@,
        is_device(u, entry, true) ==> u.queue_key@ == truncated_hash_of(entry.device_pubkey@),
        is_device(u, entry, false) ==> u.queue_key@ == entry.device_lxmf_hash@,
{
}

/// The identities that are served, and the hashes under which messages are held,
/// are listed one for one.
pub proof fn law_listed_one_for_one(devices: Seq<Device>, list: Seq<Unconfirmed>)
    ensures
        distros_of(devices).len() == devices.len(),
        forall|i: int| 0 <= i < devices.len() ==> #[trigger] distros_of(devices)[i] == devices[i].distro,
        queue_keys_of(list).len() == list.len(),
        forall|i: int| 0 <= i < list.len() ==> #[trigger] queue_keys_of(list)[i] == list[i].queue_key@,
{
}

/// Messages for keys are received under the hash that the identity of the keys
/// has for them.
pub proof fn law_where_messages_are_received(pubkey: Seq<u8>)
    ensures
        delivery_hash_of(pubkey) == destination_hash_of(sha256_of(pubkey).subrange(0, 16), "lxmf"@, seq!["delivery"@]),
{
}

/// A message that missed a device waits for it, last of all that does.
pub proof fn law_missed_message_waits(
    queue: &mut DeferredQueue,
    missed: &Vec<Vec<u8>>,
    distro_hash: &[u8],
    lxmf_data: &[u8],
    now: u64,
    i: int,
)
    requires
        call_ensures(enqueue_distro_misses, (queue, missed, distro_hash, lxmf_data, now), ()),
        0 <= i < missed@.len(),
        missed@.len() <= 256,
        old(queue)@.len() + missed@.len() <= old(queue).global_limit,
    ensures
        waiting_for(final(queue)@, missed@[i]@).contains(
            Deferred { subscriber: missed@[i]@, channel: distro_hash@, blob: lxmf_data@, enqueued_at: now },
        ),
{
    assert(views(missed@)[i] == missed@[i]@);
    law_message_waits_for_every_missed_device(
        old(queue)@,
        views(missed@),
        distro_hash@,
        lxmf_data@,
        now,
        old(queue).global_limit as nat,
        i,
    );
}

/// A device is sent a message unless it took it on a stream or its keys are not
/// valid. What it is sent is the message behind the hash of the identity that it
/// shares, and whom it misses, it is held for.
pub proof fn law_what_is_done_for_a_device(
    entry: &DistroEntry,
    distro: &[u8],
    blob: &[u8],
    streamed: bool,
    key_is_valid: bool,
    r: DevicePlan,
)
    requires
        call_ensures(plan_device, (entry, distro, blob, streamed, key_is_valid), r),
    ensures
        r is Delivered <==> streamed,
        r is Missed <==> !streamed && !key_is_valid,
        r is Send <==> !streamed && key_is_valid,
        r matches DevicePlan::Send { recipient, destination_hash, payload } ==> payload@ == distro@ + blob@
            && recipient.wake_key@ == entry.device_lxmf_hash@ && recipient.queue_key@ == truncated_hash_of(
            entry.device_pubkey@,
        ) && destination_hash@ == destination_hash_of(
            truncated_hash_of(entry.device_pubkey@),
            "rfed"@,
            seq!["delivery"@],
        ),
        r matches DevicePlan::Missed(u) ==> u.queue_key@ == entry.device_lxmf_hash@ && u.wake_key@
            == entry.device_lxmf_hash@,
{
}

/// A message reached a device exactly where it was sent, and a path to it is
/// asked for where no interface took it.
pub proof fn law_how_a_sending_ends(recipient: Unconfirmed, sending: Sending, r: DeviceEnd)
    requires
        call_ensures(conclude_device, (recipient, sending), r),
    ensures
        r.recipient == recipient,
        r.delivered <==> sending is Sent,
        r.request_path <==> sending is NoInterface,
{
}

/// A device is registered until its end, and no other is touched.
pub proof fn law_device_until_its_end(
    table: &mut DistroTable,
    distro: Vec<u8>,
    device: Vec<u8>,
    pubkey: Vec<u8>,
    now: u64,
    new: bool,
    later: &mut DistroTable,
    d: &[u8],
    v: &[u8],
    ended: bool,
    x: Device,
)
    requires
        call_ensures(DistroTable::register, (table, distro, device, pubkey, now), new),
        *old(later) == *final(table),
        call_ensures(DistroTable::unregister, (later, d, v), ended),
        d@ == distro@,
        v@ == device@,
    ensures
        exists|i: int|
            0 <= i < final(table)@.len() && (#[trigger] final(table)@[i]).distro == distro@ && final(table)@[i].device
                == device@,
        forall|i: int|
            0 <= i < final(later)@.len() ==> !((#[trigger] final(later)@[i]).distro == distro@ && final(later)@[i].device == device@),
        x.distro != distro@ || x.device != device@ ==> (final(later)@.contains(x) <==> old(table)@.contains(x)),
{
    let before = old(table)@;
    let after = final(table)@;
    let left = final(later)@;
    law_registering_is_idempotent(before, distro@, device@, pubkey@, pubkey@, now, now);
    assert(is_registered(after, distro@, device@));
    law_unregistering_ends_one(after, distro@, device@, x);
    assert forall|i: int| 0 <= i < left.len() implies !((#[trigger] left[i]).distro == distro@ && left[i].device
        == device@) by {
        law_unregistering_ends_one(after, distro@, device@, left[i]);
        assert(left.contains(left[i]));
    }
    if x.distro != distro@ || x.device != device@ {
        if after.contains(x) {
            let k = after.index_of(x);
            if k < before.len() {
                assert(before[k] == x);
            }
        }
        if before.contains(x) {
            assert(after[before.index_of(x)] == x);
        }
    }
}

/// An announce is taken apart where it is long enough and begins with the keys
/// that are expected: it names its destination by these, and carries the
/// signature before the further data.
pub proof fn law_parts_of_an_announce(
    keys: Seq<u8>,
    name: Seq<u8>,
    random: Seq<u8>,
    ratchet: Seq<u8>,
    signature: Seq<u8>,
    more: Seq<u8>,
    data: &[u8],
    expected: &[u8],
    r: Result<SignedAnnounce, String>,
)
    requires
        call_ensures(open_distro_announce, (data, ratchet.len() == 32, expected), r),
        keys.len() == 64,
        name.len() == 10,
        random.len() == 10,
        ratchet.len() == 0 || ratchet.len() == 32,
        signature.len() == 64,
        data@ == keys + name + random + ratchet + signature + more,
    ensures
        r is Ok <==> keys == expected@,
        r is Ok ==> r->Ok_0.signature@ == signature && r->Ok_0.destination_hash@ == delivery_hash_of(keys)
            && r->Ok_0.signed_data@ == delivery_hash_of(keys) + keys + name + random + ratchet + more && (
        r->Ok_0.names_delivery <==> name == delivery_name_hash()),
{
    let all = data@;
    let sig = 84 + ratchet.len() as int;
    assert(all.take(64) =~= keys);
    assert(all.subrange(64, 74) =~= name);
    assert(all.subrange(sig, sig + 64) =~= signature);
    law_signature_covers_the_announce(keys, name, random, ratchet, signature, more);
}

/// An announce holds exactly where its keys are those of an identity, it names
/// the aspect under which messages are received, and its signature holds.
pub proof fn law_when_an_announce_holds(
    announce: SignedAnnounce,
    key: Result<(), String>,
    signature_holds: bool,
    r: Result<Vec<u8>, String>,
)
    requires
        call_ensures(verify_distro_announce, (announce, key, signature_holds), r),
    ensures
        r is Ok <==> key is Ok && announce.names_delivery && signature_holds,
        r is Ok ==> r->Ok_0@ == announce.destination_hash@,
{
}

} // verus!
