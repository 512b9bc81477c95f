//! Requests for shared identities: to register a device or end its
//! registration, to list the devices, and to hand in a signed announce.
use vstd::prelude::*;
use crate::destinations::channel_requests::bool_reply;
use crate::destinations::fed_node::FedNode;
use crate::destinations::payload::{payload_error_text, PayloadError, Signed, KEY_LEN};
use crate::distro::{
    announce_signed_data, delivery_hash_of, delivery_name_hash, device_ref_views, for_distro, is_distro_of,
    is_other_device, lxmf_delivery_hash_from_pubkey, of_other_distro, open_distro_announce, parse_distro_announce_payload,
    ratchet_len, short_text, verify_distro_announce, with_device, Device, DistroEntry, HeldAnnounce, SignedAnnounce,
    ANNOUNCE_FIXED_LEN, PUBLIC_KEY_LEN,
};
use crate::msgpack::{hash_list_read, hash_list_write, list_fits, write_bool, write_hash_list};
use crate::octets::{copied, lemma_filter_holds, views};
use crate::text::{decimal, decimal_text};

verus! {

/// Why a registration of a device, or its end, is refused where it is. What
/// is signed are the keys of the device, by the shared identity.
pub open spec fn registration_refusal(signed: Result<Signed, PayloadError>, device_key: Result<(), String>) -> Option<
    Seq<char>,
> {
    match signed {
        Err(e) => Some("bad signature: "@ + payload_error_text(e)),
        Ok(s) => if s.value@.len() != KEY_LEN {
            Some("device_pubkey len "@ + decimal_text(s.value@.len()) + " != 64"@)
        } else if s.public_key@.len() != KEY_LEN {
            Some("distro_pubkey len "@ + decimal_text(s.public_key@.len()) + " != 64"@)
        } else {
            match device_key {
                Err(e) => Some("device pubkey invalid: "@ + e@),
                Ok(_) => None,
            }
        },
    }
}

/// The addresses of the devices of a list.
pub open spec fn device_hashes(devices: Seq<Device>) -> Seq<Seq<u8>> {
    devices.map_values(|d: Device| d.device)
}

/// The addresses of the devices that are registered for the identity of these
/// keys.
pub open spec fn devices_of_key(devices: Seq<Device>, public_key: Seq<u8>) -> Seq<Seq<u8>> {
    device_hashes(devices.filter(for_distro(delivery_hash_of(public_key))))
}

/// A request to pass on an announce, taken apart.
pub struct AnnounceRequest {
    pub ratchet: bool,
    pub announce_data: Vec<u8>,
    pub parts: SignedAnnounce,
}

/// Why the value of a signed request is no announce of the signer, where it is
/// not.
pub open spec fn request_refusal(value: Seq<u8>, public_key: Seq<u8>) -> Option<Seq<char>> {
    let least = ANNOUNCE_FIXED_LEN + ratchet_len(value[0] % 2 == 1);
    if value.len() == 0 {
        Some("empty announce payload"@)
    } else if value.len() - 1 < least {
        Some(short_text((value.len() - 1) as nat, least))
    } else if value.skip(1).take(PUBLIC_KEY_LEN as int) != public_key {
        Some("announce public key does not match the registering distro key"@)
    } else {
        None
    }
}

/// Takes a signed request to pass on an announce apart: the announce has to
/// be of the identity that signed the request.
pub fn open_announce_request(signed: &Signed) -> (r: Result<AnnounceRequest, String>)
    ensures
        match request_refusal(signed.value@, signed.public_key@) {
            Some(text) => r matches Err(e) && e@ == text,
            None => r is Ok,
        },
        r matches Ok(a) ==> {
            let sig = 84 + ratchet_len(a.ratchet);
            &&& a.ratchet == (signed.value@[0] % 2 == 1)
            &&& a.announce_data@ == signed.value@.skip(1)
            &&& a.parts.destination_hash@ == delivery_hash_of(signed.public_key@)
            &&& a.parts.names_delivery == (a.announce_data@.subrange(64, 74) == delivery_name_hash())
            &&& a.parts.signature@ == a.announce_data@.subrange(sig, sig + 64)
            &&& a.parts.signed_data@ == announce_signed_data(a.announce_data@, a.ratchet)
        },
{
    let (ratchet, announce_data) = match parse_distro_announce_payload(signed.value.as_slice()) {
        Ok(p) => p,
        Err(e) => return Err(e),
    };
    match open_distro_announce(announce_data.as_slice(), ratchet, signed.public_key.as_slice()) {
        Ok(parts) => Ok(AnnounceRequest { ratchet, announce_data, parts }),
        Err(e) => Err(e),
    }
}

/// Why an announce that was taken apart is not held, where it is not: its keys
/// are not valid, it is not for receiving messages, its signature does not
/// hold, or no device is registered for its identity.
pub open spec fn announce_refusal(
    parts: SignedAnnounce,
    key: Result<(), String>,
    signature_holds: bool,
    devices: Seq<Device>,
) -> Option<Seq<char>> {
    match key {
        Err(e) => Some("distro pubkey invalid: "@ + e@),
        Ok(_) => if !parts.names_delivery {
            Some("announce name_hash is not lxmf.delivery"@)
        } else if !signature_holds {
            Some("announce signature verification failed"@)
        } else if !is_distro_of(devices, parts.destination_hash@) {
            Some("no device registered"@)
        } else {
            None
        },
    }
}

/// The announces that are held once one more is.
pub open spec fn with_announce(held: Seq<HeldAnnounce>, new: HeldAnnounce) -> Seq<HeldAnnounce> {
    held.filter(of_other_distro(new.distro)).push(new)
}

/// The answer to a request to pass on an announce.
pub struct AnnounceReply {
    pub reply: Vec<u8>,
    /// The identity whose announce is to be passed on at once.
    pub replay: Option<Vec<u8>>,
}

impl FedNode {
    /// Registers the device whose keys are signed for the identity that signed
    /// them, or ends its registration. Once the last device is gone, the
    /// announce of the identity is no longer passed on.
    pub fn handle_distro_registration(
        &mut self,
        signed: Result<Signed, PayloadError>,
        device_key: Result<(), String>,
        register: bool,
        now: u64,
    ) -> (r: Result<bool, String>)
        ensures
            *final(self) == (FedNode {
                distro_table: final(self).distro_table,
                distro_announces: final(self).distro_announces,
                ..*old(self)
            }),
            match registration_refusal(signed, device_key) {
                Some(text) => (r matches Err(e) && e@ == text) && *final(self) == *old(self),
                None => {
                    let distro = delivery_hash_of(signed->Ok_0.public_key@);
                    let device = delivery_hash_of(signed->Ok_0.value@);
                    &&& r == Ok::<bool, String>(true)
                    &&& register ==> final(self).distro_table@ == with_device(
                        old(self).distro_table@,
                        distro,
                        device,
                        signed->Ok_0.value@,
                        now,
                    )
                    &&& !register ==> final(self).distro_table@ == old(self).distro_table@.filter(
                        is_other_device(distro, device),
                    )
                    &&& register || is_distro_of(final(self).distro_table@, distro)
                        ==> final(self).distro_announces == old(self).distro_announces
                    &&& !register && !is_distro_of(final(self).distro_table@, distro)
                        ==> final(self).distro_announces@ == old(self).distro_announces@.filter(of_other_distro(distro))
                },
            },
    {
        let s: Signed = match signed {
            Ok(s) => s,
            Err(e) => {
                let head: String = "bad signature: ".to_owned();
                return Err(head.concat(e.text().as_str()));
            },
        };
        if s.value.len() != KEY_LEN {
            let head: String = "device_pubkey len ".to_owned();
            return Err(head.concat(decimal(s.value.len() as u64).as_str()).concat(" != 64"));
        }
        if s.public_key.len() != KEY_LEN {
            let head: String = "distro_pubkey len ".to_owned();
            return Err(head.concat(decimal(s.public_key.len() as u64).as_str()).concat(" != 64"));
        }
        if let Err(e) = device_key {
            let head: String = "device pubkey invalid: ".to_owned();
            return Err(head.concat(e.as_str()));
        }
        let distro: Vec<u8> = lxmf_delivery_hash_from_pubkey(s.public_key.as_slice());
        let device: Vec<u8> = lxmf_delivery_hash_from_pubkey(s.value.as_slice());
        if register {
            self.distro_table.register(distro, device, s.value, now);
        } else {
            self.distro_table.unregister(distro.as_slice(), device.as_slice());
            if !self.distro_table.is_distro(distro.as_slice()) {
                self.distro_announces.remove(distro.as_slice());
            }
        }
        Ok(true)
    }

    /// As [`FedNode::handle_distro_registration`], answered with yes or no.
    pub fn on_distro_registration(
        &mut self,
        signed: Result<Signed, PayloadError>,
        device_key: Result<(), String>,
        register: bool,
        now: u64,
    ) -> (r: Vec<u8>)
        ensures
            *final(self) == (FedNode {
                distro_table: final(self).distro_table,
                distro_announces: final(self).distro_announces,
                ..*old(self)
            }),
            r@ == bool_reply(registration_refusal(signed, device_key) is None),
            registration_refusal(signed, device_key) is Some ==> *final(self) == *old(self),
            registration_refusal(signed, device_key) is None && register ==> final(self).distro_table@ == with_device(
                old(self).distro_table@,
                delivery_hash_of(signed->Ok_0.public_key@),
                delivery_hash_of(signed->Ok_0.value@),
                signed->Ok_0.value@,
                now,
            ),
            registration_refusal(signed, device_key) is None && !register ==> final(self).distro_table@
                == old(self).distro_table@.filter(
                is_other_device(delivery_hash_of(signed->Ok_0.public_key@), delivery_hash_of(signed->Ok_0.value@)),
            ),
            registration_refusal(signed, device_key) is None && (register || is_distro_of(
                final(self).distro_table@,
                delivery_hash_of(signed->Ok_0.public_key@),
            )) ==> final(self).distro_announces == old(self).distro_announces,
            registration_refusal(signed, device_key) is None && !register && !is_distro_of(
                final(self).distro_table@,
                delivery_hash_of(signed->Ok_0.public_key@),
            ) ==> final(self).distro_announces@ == old(self).distro_announces@.filter(
                of_other_distro(delivery_hash_of(signed->Ok_0.public_key@)),
            ),
    {
        match self.handle_distro_registration(signed, device_key, register, now) {
            Ok(ok) => write_bool(ok),
            Err(_) => write_bool(false),
        }
    }

    /// The addresses of the devices that are registered for the signer, and
    /// none where the request is not signed.
    pub fn on_distro_list(&self, signed: Result<Signed, PayloadError>) -> (r: Vec<u8>)
        ensures
            signed matches Ok(s) ==> {
                let list = devices_of_key(self.distro_table@, s.public_key@);
                &&& r@ == hash_list_write(list)
                &&& list_fits(list) ==> hash_list_read(r@) == Some(list)
            },
            signed is Err ==> r@ == hash_list_write(Seq::empty()),
    {
        let mut out: Vec<Vec<u8>> = Vec::new();
        match signed {
            Err(_) => {
                assert(views(out@) =~= Seq::empty());
            },
            Ok(s) => {
                let distro: Vec<u8> = lxmf_delivery_hash_from_pubkey(s.public_key.as_slice());
                let found: Vec<&DistroEntry> = self.distro_table.get_devices(distro.as_slice());
                let ghost all = device_hashes(device_ref_views(found@));
                let mut i: usize = 0;
                assert(views(out@) =~= all.take(0));
                while i < found.len()
                    invariant
                        0 <= i <= found@.len(),
                        all == device_hashes(device_ref_views(found@)),
                        views(out@) == all.take(i as int),
                    decreases found@.len() - i,
                {
                    let ghost was = views(out@);
                    let hash: Vec<u8> = copied(found[i].device_lxmf_hash.as_slice());
                    out.push(hash);
                    proof {
                        assert(all[i as int] == hash@);
                        assert(views(out@) =~= was.push(hash@));
                        assert(all.take(i + 1) =~= all.take(i as int).push(all[i as int]));
                    }
                    i += 1;
                }
                assert(all.take(all.len() as int) =~= all);
            },
        }
        write_hash_list(&out)
    }

    /// Holds an announce, to be passed on from now on, once its keys and its
    /// signature were looked at. It is refused where they do not hold, and
    /// where no device is registered for its identity.
    pub fn accept_distro_announce(
        &mut self,
        request: AnnounceRequest,
        key: Result<(), String>,
        signature_holds: bool,
        now: u64,
    ) -> (r: Result<Vec<u8>, String>)
        ensures
            *final(self) == (FedNode { distro_announces: final(self).distro_announces, ..*old(self) }),
            match announce_refusal(request.parts, key, signature_holds, old(self).distro_table@) {
                Some(text) => (r matches Err(e) && e@ == text) && *final(self) == *old(self),
                None => (r matches Ok(hash) && hash@ == request.parts.destination_hash@)
                    && final(self).distro_announces@ == with_announce(
                    old(self).distro_announces@,
                    HeldAnnounce {
                        distro: request.parts.destination_hash@,
                        data: request.announce_data@,
                        ratchet: request.ratchet,
                        updated: now,
                    },
                ),
            },
    {
        let hash: Vec<u8> = match verify_distro_announce(request.parts, key, signature_holds) {
            Ok(h) => h,
            Err(e) => return Err(e),
        };
        if !self.distro_table.is_distro(hash.as_slice()) {
            return Err("no device registered".to_owned());
        }
        self.distro_announces.put(copied(hash.as_slice()), request.announce_data, request.ratchet, now);
        Ok(hash)
    }

    /// As [`FedNode::accept_distro_announce`], answered with yes or no; an
    /// announce that is held is passed on at once. A request that is no announce
    /// is answered with no.
    pub fn on_distro_announce(
        &mut self,
        request: Result<AnnounceRequest, String>,
        key: Result<(), String>,
        signature_holds: bool,
        now: u64,
    ) -> (r: AnnounceReply)
        ensures
            *final(self) == (FedNode { distro_announces: final(self).distro_announces, ..*old(self) }),
            ({
                let refused = request is Err || announce_refusal(
                    request->Ok_0.parts,
                    key,
                    signature_holds,
                    old(self).distro_table@,
                ) is Some;
                &&& r.reply@ == bool_reply(!refused)
                &&& r.replay is None <==> refused
                &&& refused ==> *final(self) == *old(self)
                &&& !refused ==> r.replay->0@ == request->Ok_0.parts.destination_hash@
                    && final(self).distro_announces@ == with_announce(
                    old(self).distro_announces@,
                    HeldAnnounce {
                        distro: request->Ok_0.parts.destination_hash@,
                        data: request->Ok_0.announce_data@,
                        ratchet: request->Ok_0.ratchet,
                        updated: now,
                    },
                )
            }),
    {
        let request: AnnounceRequest = match request {
            Ok(a) => a,
            Err(_) => return AnnounceReply { reply: write_bool(false), replay: None },
        };
        match self.accept_distro_announce(request, key, signature_holds, now) {
            Ok(hash) => AnnounceReply { reply: write_bool(true), replay: Some(hash) },
            Err(_) => AnnounceReply { reply: write_bool(false), replay: None },
        }
    }
}

/// Whether a device is registered for every identity of which an announce is
/// held.
pub open spec fn all_served(devices: Seq<Device>, held: Seq<HeldAnnounce>) -> bool {
    forall|i: int| 0 <= i < held.len() ==> is_distro_of(devices, (#[trigger] held[i]).distro)
}

/// The announce of an identity is passed on only while a device is registered
/// for it: a registration, the end of one, and an announce that is handed in
/// keep it so.
pub proof fn law_no_announce_without_device(
    devices: Seq<Device>,
    held: Seq<HeldAnnounce>,
    distro: Seq<u8>,
    device: Seq<u8>,
    pubkey: Seq<u8>,
    now: u64,
    new: HeldAnnounce,
)
    requires
        all_served(devices, held),
    ensures
        all_served(with_device(devices, distro, device, pubkey, now), held),
        ({
            let left = devices.filter(is_other_device(distro, device));
            all_served(
                left,
                if is_distro_of(left, distro) {
                    held
                } else {
                    held.filter(of_other_distro(distro))
                },
            )
        }),
        is_distro_of(devices, new.distro) ==> all_served(devices, with_announce(held, new)),
{
    let more = with_device(devices, distro, device, pubkey, now);
    assert forall|i: int| 0 <= i < held.len() implies is_distro_of(more, (#[trigger] held[i]).distro) by {
        let k = choose|k: int| 0 <= k < devices.len() && (#[trigger] devices[k]).distro == held[i].distro;
        assert(more[k].distro == held[i].distro);
    }
    let left = devices.filter(is_other_device(distro, device));
    let kept = held.filter(of_other_distro(distro));
    lemma_filter_holds(devices, is_other_device(distro, device));
    lemma_filter_holds(held, of_other_distro(distro));
    assert forall|a: HeldAnnounce| #[trigger] held.contains(a) && a.distro != distro implies is_distro_of(
        left,
        a.distro,
    ) by {
        let i = held.index_of(a);
        assert(is_distro_of(devices, held[i].distro));
        let k = choose|k: int| 0 <= k < devices.len() && (#[trigger] devices[k]).distro == a.distro;
        assert(devices.contains(devices[k]));
        assert(left.contains(devices[k]));
        assert(left[left.index_of(devices[k])].distro == a.distro);
    }
    assert forall|i: int| 0 <= i < held.len() && is_distro_of(left, distro) implies is_distro_of(
        left,
        (#[trigger] held[i]).distro,
    ) by {
        assert(held.contains(held[i]));
    }
    assert forall|i: int| 0 <= i < kept.len() implies is_distro_of(left, (#[trigger] kept[i]).distro) by {
        assert(kept.contains(kept[i]));
    }
    let others = held.filter(of_other_distro(new.distro));
    lemma_filter_holds(held, of_other_distro(new.distro));
    assert forall|i: int| 0 <= i < with_announce(held, new).len() && is_distro_of(devices, new.distro) implies is_distro_of(
        devices,
        (#[trigger] with_announce(held, new)[i]).distro,
    ) by {
        if i < others.len() {
            assert(others.contains(others[i]));
            let k = held.index_of(others[i]);
            assert(is_distro_of(devices, held[k].distro));
        }
    }
}

/// A device is registered exactly where the request is signed, and what it
/// signs is 64 bytes that are the keys of an identity.
pub proof fn law_who_may_register(signed: Result<Signed, PayloadError>, device_key: Result<(), String>)
    ensures
        registration_refusal(signed, device_key) is None <==> (signed matches Ok(s) && s.value@.len() == 64
            && s.public_key@.len() == 64) && device_key is Ok,
{
}

/// An announce that is handed in is taken up exactly where it is long enough
/// for what it carries and begins with the keys of the signer.
pub proof fn law_which_announces_are_taken_up(value: Seq<u8>, public_key: Seq<u8>)
    ensures
        request_refusal(value, public_key) is None <==> value.len() > 0 && value.len() >= (if value[0] % 2 == 1 {
            181int
        } else {
            149int
        }) && value.subrange(1, 65) == public_key,
{
    if value.len() >= 149 {
        assert(value.skip(1).take(64) =~= value.subrange(1, 65));
    }
}

/// An announce is held exactly where the keys are those of an identity, it
/// names the aspect under which messages are received, its signature holds, and
/// a device is registered for the identity.
pub proof fn law_which_announces_are_held(
    parts: SignedAnnounce,
    key: Result<(), String>,
    signature_holds: bool,
    devices: Seq<Device>,
)
    ensures
        announce_refusal(parts, key, signature_holds, devices) is None <==> key is Ok && parts.names_delivery
            && signature_holds && exists|i: int|
            0 <= i < devices.len() && (#[trigger] devices[i]).distro == parts.destination_hash@,
{
}

/// An announce that is held is the last in the list, and those of the other
/// identities are still there, in their order.
pub proof fn law_held_announce_is_there(held: Seq<HeldAnnounce>, new: HeldAnnounce, a: HeldAnnounce)
    ensures
        with_announce(held, new).len() > 0,
        with_announce(held, new).last() == new,
        a.distro != new.distro ==> (with_announce(held, new).contains(a) <==> held.contains(a)),
        a.distro == new.distro && a != new ==> !with_announce(held, new).contains(a),
{
    let rest = held.filter(of_other_distro(new.distro));
    let after = with_announce(held, new);
    lemma_filter_holds(held, of_other_distro(new.distro));
    if after.contains(a) && a != new {
        let i = after.index_of(a);
        assert(rest[i] == a);
        assert(rest.contains(a));
    }
    if rest.contains(a) {
        assert(after[rest.index_of(a)] == a);
    }
}

/// The devices of a key are listed by their hashes, those that are registered
/// for the identity of the key, in the order of the registry.
pub proof fn law_devices_are_listed(devices: Seq<Device>, public_key: Seq<u8>, own: spec_fn(Device) -> bool)
    requires
        forall|d: Device| #[trigger] own(d) <==> d.distro == delivery_hash_of(public_key),
    ensures
        devices_of_key(devices, public_key).len() == devices.filter(own).len(),
        forall|i: int|
            0 <= i < devices.filter(own).len() ==> #[trigger] devices_of_key(devices, public_key)[i]
                == devices.filter(own)[i].device,
{
    crate::octets::lemma_filter_agree(devices, own, for_distro(delivery_hash_of(public_key)));
}

/// A device that signs for an identity is registered for it until it asks for the
/// end, and with the last device of an identity goes its announce. A request that
/// is refused changes nothing, and is answered with no.
pub proof fn law_registration_of_a_device(
    node: &mut FedNode,
    signed: Result<Signed, PayloadError>,
    device_key: Result<(), String>,
    register: bool,
    now: u64,
    r: Vec<u8>,
    a: HeldAnnounce,
)
    requires
        call_ensures(FedNode::on_distro_registration, (node, signed, device_key, register, now), r),
    ensures
        ({
            let granted = signed is Ok && signed->Ok_0.value@.len() == 64 && signed->Ok_0.public_key@.len() == 64
                && device_key is Ok;
            let distro = delivery_hash_of(signed->Ok_0.public_key@);
            let device = delivery_hash_of(signed->Ok_0.value@);
            let there = exists|i: int|
                0 <= i < final(node).distro_table@.len() && (#[trigger] final(node).distro_table@[i]).distro == distro
                    && final(node).distro_table@[i].device == device;
            &&& !granted ==> *final(node) == *old(node) && r@ == seq![0xc2u8]
            &&& granted ==> r@ == seq![0xc3u8]
            &&& granted && register ==> there && final(node).distro_announces == old(node).distro_announces
            &&& granted && !register ==> !there
            &&& granted && !register && (forall|i: int|
                0 <= i < final(node).distro_table@.len() ==> (#[trigger] final(node).distro_table@[i]).distro != distro)
                ==> (final(node).distro_announces@.contains(a) <==> old(node).distro_announces@.contains(a) && a.distro
                != distro)
        }),
{
    law_who_may_register(signed, device_key);
    if registration_refusal(signed, device_key) is None {
        let distro = delivery_hash_of(signed->Ok_0.public_key@);
        let device = delivery_hash_of(signed->Ok_0.value@);
        let table = old(node).distro_table@;
        let after = final(node).distro_table@;
        if register {
            crate::distro::law_registering_is_idempotent(
                table,
                distro,
                device,
                signed->Ok_0.value@,
                signed->Ok_0.value@,
                now,
                now,
            );
            assert(crate::distro::is_registered(after, distro, device));
        } else {
            assert forall|i: int| 0 <= i < after.len() implies !((#[trigger] after[i]).distro == distro
                && after[i].device == device) by {
                crate::distro::law_unregistering_ends_one(table, distro, device, after[i]);
                assert(after.contains(after[i]));
            }
            lemma_filter_holds(old(node).distro_announces@, of_other_distro(distro));
        }
    }
}

/// An announce that is held is passed on, and one that is refused changes
/// nothing.
pub proof fn law_held_announce_is_passed_on(
    node: &mut FedNode,
    request: Result<AnnounceRequest, String>,
    key: Result<(), String>,
    signature_holds: bool,
    now: u64,
    r: AnnounceReply,
)
    requires
        call_ensures(FedNode::on_distro_announce, (node, request, key, signature_holds, now), r),
    ensures
        ({
            let held = request is Ok && key is Ok && request->Ok_0.parts.names_delivery && signature_holds && exists|
                i: int,
            |
                0 <= i < old(node).distro_table@.len() && (#[trigger] old(node).distro_table@[i]).distro
                    == request->Ok_0.parts.destination_hash@;
            &&& held ==> r.reply@ == seq![0xc3u8] && r.replay is Some && final(node).distro_announces@.len() > 0
                && final(node).distro_announces@.last().data == request->Ok_0.announce_data@
                && final(node).distro_announces@.last().distro == request->Ok_0.parts.destination_hash@
            &&& !held ==> r.reply@ == seq![0xc2u8] && r.replay is None && *final(node) == *old(node)
        }),
{
    if request is Ok {
        law_which_announces_are_held(request->Ok_0.parts, key, signature_holds, old(node).distro_table@);
    }
}

} // verus!
