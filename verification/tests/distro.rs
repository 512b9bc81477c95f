use ed25519_dalek::{ExpandedSecretKey, PublicKey, SecretKey, Signature, Verifier};
use rfed::handoff::Unconfirmed;
use rfed::deferred_queue::DeferredQueue;
use rfed::digest::destination_hash;
use rfed::distro::{
    conclude_device, distro_message_id, enqueue_distro_misses, lxmf_delivery_hash_from_pubkey, missed,
    open_distro_announce, parse_distro_announce_payload, plan_device, queue_keys, replay_target, verify_distro_announce, DevicePlan,
    DistroAnnounceStore, DistroTable, Sending,
};
use sha2::Digest;

fn make_table() -> DistroTable {
    DistroTable::load(Vec::new())
}

fn dummy_hash(byte: u8) -> Vec<u8> {
    vec![byte; 16]
}

fn dummy_pubkey(byte: u8) -> Vec<u8> {
    vec![byte; 64]
}

/// An identity: an encryption key and a signing key, of which a seed gives the
/// latter.
struct Identity {
    secret: SecretKey,
    public: PublicKey,
    encryption: [u8; 32],
}

impl Identity {
    fn new(seed: u8) -> Identity {
        let secret = SecretKey::from_bytes(&[seed; 32]).expect("seed");
        let public = PublicKey::from(&secret);
        Identity { secret, public, encryption: [seed ^ 0xFF; 32] }
    }

    fn public_key(&self) -> Vec<u8> {
        let mut key = self.encryption.to_vec();
        key.extend_from_slice(self.public.as_bytes());
        key
    }

    fn hash(&self) -> Vec<u8> {
        sha2::Sha256::digest(self.public_key())[..16].to_vec()
    }

    fn sign(&self, data: &[u8]) -> Vec<u8> {
        ExpandedSecretKey::from(&self.secret).sign(data, &self.public).to_bytes().to_vec()
    }
}

fn name_hash(aspect: &str) -> Vec<u8> {
    sha2::Sha256::digest(format!("lxmf.{aspect}").as_bytes())[..10].to_vec()
}

fn build_announce_for(identity: &Identity, aspect: &str, app_data: &[u8]) -> (Vec<u8>, Vec<u8>) {
    let destination = destination_hash(&identity.hash(), "lxmf", &[aspect]);
    let public_key = identity.public_key();
    let random_hash = vec![0x5Au8; 10];

    let mut signed_data = destination.clone();
    signed_data.extend_from_slice(&public_key);
    signed_data.extend_from_slice(&name_hash(aspect));
    signed_data.extend_from_slice(&random_hash);
    signed_data.extend_from_slice(app_data);
    let signature = identity.sign(&signed_data);

    let mut announce_data = public_key;
    announce_data.extend_from_slice(&name_hash(aspect));
    announce_data.extend_from_slice(&random_hash);
    announce_data.extend_from_slice(&signature);
    announce_data.extend_from_slice(app_data);
    (announce_data, destination)
}

fn build_announce(identity: &Identity, app_data: &[u8]) -> (Vec<u8>, Vec<u8>) {
    build_announce_for(identity, "delivery", app_data)
}

/// Takes an announce apart, looks at its keys and its signature, and has the
/// library judge it.
fn verify(announce_data: &[u8], ratchet: bool, pubkey: &[u8]) -> Result<Vec<u8>, String> {
    let parts = open_distro_announce(announce_data, ratchet, pubkey)?;
    let key = PublicKey::from_bytes(&pubkey[32..64]);
    let signature = Signature::from_bytes(&parts.signature);
    let holds = match (&key, &signature) {
        (Ok(k), Ok(s)) => k.verify(&parts.signed_data, s).is_ok(),
        _ => false,
    };
    verify_distro_announce(parts, key.map(|_| ()).map_err(|e| e.to_string()), holds)
}

#[test]
fn verify_accepts_a_genuine_announce_and_returns_the_delivery_hash() {
    let identity = Identity::new(1);
    let (announce_data, expected_hash) = build_announce(&identity, b"");
    let hash = verify(&announce_data, false, &identity.public_key()).expect("a correctly signed announce must verify");
    assert_eq!(hash, expected_hash, "must return the lxmf.delivery hash");
}

#[test]
fn verify_accepts_an_announce_carrying_app_data() {
    let identity = Identity::new(2);
    let (announce_data, expected_hash) = build_announce(&identity, b"display name bytes");
    let hash = verify(&announce_data, false, &identity.public_key())
        .expect("app data is signed too, so it must still verify");
    assert_eq!(hash, expected_hash);
}

#[test]
fn verify_rejects_an_announce_for_a_different_key() {
    let attacker = Identity::new(3);
    let victim = Identity::new(4);
    let (announce_data, _) = build_announce(&attacker, b"");
    let err = verify(&announce_data, false, &victim.public_key())
        .expect_err("an announce for another identity must be rejected");
    assert!(err.contains("does not match"), "expected a key-mismatch error, got: {err}");
}

#[test]
fn verify_rejects_a_tampered_signature() {
    let identity = Identity::new(5);
    let (mut announce_data, _) = build_announce(&identity, b"");
    let sig_start = 84;
    announce_data[sig_start] ^= 0xFF;
    let err = verify(&announce_data, false, &identity.public_key()).expect_err("a corrupted signature must be rejected");
    assert!(err.contains("signature"), "expected a signature error, got: {err}");
}

#[test]
fn verify_rejects_tampered_app_data() {
    let identity = Identity::new(6);
    let (mut announce_data, _) = build_announce(&identity, b"display name bytes");
    let last = announce_data.len() - 1;
    announce_data[last] ^= 0xFF;
    let err = verify(&announce_data, false, &identity.public_key())
        .expect_err("modified app data must invalidate the signature");
    assert!(err.contains("signature"), "expected a signature error, got: {err}");
}

#[test]
fn verify_rejects_an_announce_for_a_non_delivery_aspect() {
    let identity = Identity::new(7);
    let (announce_data, _) = build_announce_for(&identity, "propagation", b"");
    let err = verify(&announce_data, false, &identity.public_key())
        .expect_err("only lxmf.delivery announces may be replayed");
    assert!(err.contains("name_hash"), "expected an aspect error, got: {err}");
}

#[test]
fn verify_rejects_a_truncated_announce() {
    let identity = Identity::new(8);
    let (announce_data, _) = build_announce(&identity, b"");
    let err = verify(&announce_data[..100], false, &identity.public_key())
        .expect_err("a short announce must not be indexed out of bounds");
    assert!(err.contains("len"), "expected a length error, got: {err}");
    assert_eq!(err, "announce_data len 100 < minimum 148");
}

#[test]
fn verify_rejects_a_ratchet_announce_claiming_no_ratchet() {
    let identity = Identity::new(9);
    let (announce_data, _) = build_announce(&identity, b"");
    let err = verify(&announce_data, true, &identity.public_key())
        .expect_err("claiming a ratchet that is not present must be rejected");
    assert!(err.contains("len") || err.contains("signature"), "expected a parse or signature error, got: {err}");
}

#[test]
fn announce_payload_framing_round_trips_the_client_format() {
    let identity = Identity::new(10);
    let (announce_data, expected_hash) = build_announce(&identity, b"");
    let mut value = vec![0x00];
    value.extend_from_slice(&announce_data);
    let (ratchet, parsed) = parse_distro_announce_payload(&value).expect("framing must parse");
    assert!(!ratchet, "flags bit 0 clear means no ratchet");
    let hash = verify(&parsed, ratchet, &identity.public_key()).expect("the unframed announce must still verify");
    assert_eq!(hash, expected_hash);
}

#[test]
fn announce_payload_framing_reads_the_ratchet_flag() {
    let (ratchet, parsed) = parse_distro_announce_payload(&[0x01, 0xAA, 0xBB]).expect("framing must parse");
    assert!(ratchet, "flags bit 0 set means a ratchet is present");
    assert_eq!(parsed, vec![0xAA, 0xBB], "flags byte must not leak into the announce");
}

#[test]
fn announce_payload_framing_rejects_an_empty_value() {
    assert!(
        parse_distro_announce_payload(&[]).is_err(),
        "an empty value must not panic on the flags byte"
    );
}

#[test]
fn announce_store_replaces_on_resubmission() {
    let mut store = DistroAnnounceStore::load(Vec::new());
    let hash = dummy_hash(0xAB);
    store.put(hash.clone(), vec![0x01; 200], false, 1);
    store.put(hash.clone(), vec![0x02; 200], true, 2);
    assert_eq!(store.len(), 1, "a resubmission must replace, not accumulate");
    let held = store.get(&hash).expect("announce present");
    assert_eq!(held.announce_data[0], 0x02, "the newest announce must win");
    assert!(held.ratchet, "the ratchet flag must be updated too");
}

#[test]
fn announce_store_round_trips_through_disk() {
    let hash = dummy_hash(0xCD);
    let mut store = DistroAnnounceStore::load(Vec::new());
    store.put(hash.clone(), vec![0x07; 180], true, 1);
    let reloaded = DistroAnnounceStore::load(store.snapshot());
    let held = reloaded.get(&hash).expect("announce must survive a restart");
    assert_eq!(held.announce_data, vec![0x07; 180]);
    assert!(held.ratchet);
}

#[test]
fn announce_store_remove_drops_the_entry() {
    let mut store = DistroAnnounceStore::load(Vec::new());
    let hash = dummy_hash(0xEF);
    store.put(hash.clone(), vec![0x01; 180], false, 1);
    store.remove(&hash);
    assert!(store.get(&hash).is_none(), "removed announce must be gone");
    assert_eq!(store.len(), 0);
}

#[test]
fn register_and_get_devices() {
    let mut t = make_table();
    let distro_hash = dummy_hash(0xAA);
    let dev_hash = dummy_hash(0x11);
    let dev_pubkey = dummy_pubkey(0x11);
    t.register(distro_hash.clone(), dev_hash.clone(), dev_pubkey.clone(), 1);
    let devices = t.get_devices(&distro_hash);
    assert_eq!(devices.len(), 1);
    assert_eq!(devices[0].distro_lxmf_hash, distro_hash);
    assert_eq!(devices[0].device_lxmf_hash, dev_hash);
    assert_eq!(devices[0].device_pubkey, dev_pubkey);
}

#[test]
fn register_is_idempotent() {
    let mut t = make_table();
    let dh = dummy_hash(0xAA);
    let dev_h = dummy_hash(0x11);
    let pk = dummy_pubkey(0x11);
    t.register(dh.clone(), dev_h.clone(), pk.clone(), 1);
    t.register(dh.clone(), dev_h.clone(), pk.clone(), 2);
    t.register(dh.clone(), dev_h.clone(), pk.clone(), 3);
    assert_eq!(t.get_devices(&dh).len(), 1);
}

#[test]
fn multiple_devices_per_distro() {
    let mut t = make_table();
    let dh = dummy_hash(0xAA);
    t.register(dh.clone(), dummy_hash(0x11), dummy_pubkey(0x11), 1);
    t.register(dh.clone(), dummy_hash(0x22), dummy_pubkey(0x22), 1);
    t.register(dh.clone(), dummy_hash(0x33), dummy_pubkey(0x33), 1);
    assert_eq!(t.get_devices(&dh).len(), 3);
}

#[test]
fn unregister_removes_device() {
    let mut t = make_table();
    let dh = dummy_hash(0xAA);
    let d1 = dummy_hash(0x11);
    let d2 = dummy_hash(0x22);
    t.register(dh.clone(), d1.clone(), dummy_pubkey(0x11), 1);
    t.register(dh.clone(), d2.clone(), dummy_pubkey(0x22), 1);
    assert_eq!(t.get_devices(&dh).len(), 2);
    t.unregister(&dh, &d1);
    let remaining = t.get_devices(&dh);
    assert_eq!(remaining.len(), 1);
    assert_eq!(remaining[0].device_lxmf_hash, d2);
}

#[test]
fn unregister_nonexistent_is_noop() {
    let mut t = make_table();
    let dh = dummy_hash(0xAA);
    t.register(dh.clone(), dummy_hash(0x11), dummy_pubkey(0x11), 1);
    t.unregister(&dh, &dummy_hash(0xFF));
    assert_eq!(t.get_devices(&dh).len(), 1);
}

#[test]
fn is_distro_positive_and_negative() {
    let mut t = make_table();
    let dh = dummy_hash(0xAA);
    assert!(!t.is_distro(&dh));
    t.register(dh.clone(), dummy_hash(0x11), dummy_pubkey(0x11), 1);
    assert!(t.is_distro(&dh));
    assert!(!t.is_distro(&dummy_hash(0xBB)));
}

#[test]
fn registered_distro_hashes_is_distinct_set() {
    let mut t = make_table();
    let dh1 = dummy_hash(0xAA);
    let dh2 = dummy_hash(0xBB);
    t.register(dh1.clone(), dummy_hash(0x11), dummy_pubkey(0x11), 1);
    t.register(dh2.clone(), dummy_hash(0x22), dummy_pubkey(0x22), 1);
    t.register(dh1.clone(), dummy_hash(0x33), dummy_pubkey(0x33), 1);
    let hashes = t.registered_distro_hashes();
    assert_eq!(hashes.len(), 2);
    assert!(hashes.contains(&dh1));
    assert!(hashes.contains(&dh2));
}

#[test]
fn save_and_load_roundtrip() {
    let dh = dummy_hash(0xAA);
    let dev_h = dummy_hash(0x11);
    let pk = dummy_pubkey(0x11);
    let mut t = make_table();
    t.register(dh.clone(), dev_h.clone(), pk.clone(), 1);
    assert_eq!(t.get_devices(&dh).len(), 1);
    let t = DistroTable::load(t.entries);
    let devices = t.get_devices(&dh);
    assert_eq!(devices.len(), 1, "distro entry should survive save/load");
    assert_eq!(devices[0].distro_lxmf_hash, dh);
    assert_eq!(devices[0].device_lxmf_hash, dev_h);
    assert_eq!(devices[0].device_pubkey, pk);
}

#[test]
fn empty_table_returns_zero_len() {
    let t = make_table();
    assert_eq!(t.len(), 0);
    assert!(t.get_devices(&dummy_hash(0xAA)).is_empty());
    assert!(t.registered_distro_hashes().is_empty());
}

#[test]
fn get_devices_returns_only_matching_distro() {
    let mut t = make_table();
    let dh1 = dummy_hash(0xAA);
    let dh2 = dummy_hash(0xBB);
    t.register(dh1.clone(), dummy_hash(0x11), dummy_pubkey(0x11), 1);
    t.register(dh2.clone(), dummy_hash(0x22), dummy_pubkey(0x22), 1);
    let devices = t.get_devices(&dh1);
    assert_eq!(devices.len(), 1);
    assert_eq!(devices[0].device_lxmf_hash, dummy_hash(0x11));
}

#[test]
fn distro_misses_are_queued_for_pull() {
    let mut queue = DeferredQueue::load(None);
    let device_hash = vec![0x11; 16];
    let distro_hash = vec![0x22; 16];
    let lxmf_data = vec![0x33; 64];
    enqueue_distro_misses(&mut queue, &vec![device_hash.clone()], &distro_hash, &lxmf_data, 1);
    let pending = queue.drain(&device_hash);
    assert_eq!(pending.len(), 1);
    assert_eq!(pending[0].channel_hash, distro_hash);
    assert_eq!(pending[0].blob, lxmf_data);
}

#[test]
fn message_ids_are_sixteen_bytes_of_the_digest() {
    let id = distro_message_id(b"abc");
    assert_eq!(id, vec![
        0xba, 0x78, 0x16, 0xbf, 0x8f, 0x01, 0xcf, 0xea, 0x41, 0x41, 0x40, 0xde, 0x5d, 0xae, 0x22, 0x23,
    ]);
}

#[test]
fn a_held_announce_is_passed_on_under_its_own_keys() {
    let identity = Identity::new(11);
    let (announce_data, hash) = build_announce(&identity, b"");
    let mut store = DistroAnnounceStore::load(Vec::new());
    store.put(hash.clone(), announce_data, false, 1);
    let (key, target) = replay_target(store.get(&hash).expect("held")).expect("long enough");
    assert_eq!(key, identity.public_key());
    assert_eq!(target, hash);
    assert_eq!(lxmf_delivery_hash_from_pubkey(&key), hash);
    store.put(hash.clone(), vec![1; 63], false, 2);
    assert_eq!(replay_target(store.get(&hash).expect("held")).unwrap_err(), "stored announce too short");
}

#[test]
fn an_invalid_key_is_named_first() {
    let identity = Identity::new(12);
    let (announce_data, _) = build_announce_for(&identity, "propagation", b"");
    let parts = open_distro_announce(&announce_data, false, &identity.public_key()).expect("parts");
    let err = verify_distro_announce(parts, Err("bad point".to_string()), false).unwrap_err();
    assert_eq!(err, "distro pubkey invalid: bad point");
}

#[test]
fn a_device_is_sent_to_unless_it_streams_or_its_key_is_bad() {
    let identity = Identity::new(13);
    let mut t = make_table();
    t.register(dummy_hash(0xAA), dummy_hash(0x11), identity.public_key(), 1);
    let entry = &t.entries[0];
    let device = |queue_key: Vec<u8>, n: u8| Unconfirmed { queue_key, wake_key: dummy_hash(n) };
    assert!(matches!(plan_device(entry, &[0xAA; 16], b"blob", true, true), DevicePlan::Delivered(h) if h == dummy_hash(0x11)));
    assert!(matches!(plan_device(entry, &[0xAA; 16], b"blob", false, false), DevicePlan::Missed(u) if u == device(dummy_hash(0x11), 0x11)));
    match plan_device(entry, &[0xAA; 16], b"blob", false, true) {
        DevicePlan::Send { recipient, destination_hash: to, payload } => {
            assert_eq!(recipient, device(identity.hash(), 0x11));
            assert_eq!(to, destination_hash(&identity.hash(), "rfed", &["delivery"]));
            assert_eq!(payload, [vec![0xAA; 16], b"blob".to_vec()].concat());
        },
        _ => panic!("the device is to be sent to"),
    }
    let ends = vec![
        conclude_device(device(vec![1; 16], 1), Sending::Sent),
        conclude_device(device(vec![2; 16], 2), Sending::NoInterface),
        conclude_device(device(vec![3; 16], 3), Sending::NoPath),
        conclude_device(device(vec![4; 16], 4), Sending::Failed),
    ];
    assert!(ends[0].delivered && !ends[0].request_path);
    assert!(ends[1].request_path && !ends[2].request_path && !ends[3].request_path);
    let late = missed(ends);
    assert_eq!(late[0], device(vec![2; 16], 2));
    assert_eq!(queue_keys(&late), vec![vec![2; 16], vec![3; 16], vec![4; 16]]);
}
