use ed25519_dalek::{ExpandedSecretKey, PublicKey, SecretKey, Signature, Verifier};
use rfed::config::{NodeConfig, TierPolicy};
use rfed::deferred_queue::PendingBlob;
use rfed::destinations::backup::{
    backup_accepted, backup_ttl, encode_backup_pairs, plan_backup_push, Reach, SyncPeer,
};
use rfed::destinations::distro_requests::open_announce_request;
use rfed::destinations::fed_node::Service;
use rfed::destinations::notify_command::{notify_command, parse_notify_command, NotifyCommandKind};
use rfed::destinations::payload::{
    decode_msgpack_bin, encode_signed_payload, encode_stream_open_response, open_signed_payload, signed_payload,
    verify_signed_payload, PayloadError, Signed, SignedPayload,
};
use rfed::destinations::publish::{is_accepted, open_send, SendError};
use rfed::destinations::sync_session::SessionStep;
use rfed::destinations::FedNode;
use rfed::digest::destination_hash;
use rfed::distro::lxmf_delivery_hash_from_pubkey;
use rfed::handoff::Unconfirmed;
use rfed::msgpack::Decoded;
use rfed::text::hex;
use sha2::Digest;

const SECOND: u64 = 1_000_000_000;

fn config() -> NodeConfig {
    NodeConfig {
        config_dir: "/tmp/rfed".to_string(),
        rns_config_dir: None,
        identity_file: "/tmp/rfed/identity".to_string(),
        display_name: "node".to_string(),
        announce_interval_secs: 600,
        announce_at_start: false,
        default_policy: TierPolicy::default(),
        vip_policy: TierPolicy::vip_default(),
        vip_subscribers: Vec::new(),
        peering_cost: None,
        storage_limit_bytes: 1 << 20,
        transfer_limit_bytes: None,
        sync_limit_bytes: None,
        static_peers: Vec::new(),
        from_static_only: false,
        trusted_backup_peers: Vec::new(),
        primary_node: None,
        secondary_nodes: Vec::new(),
        owner_offline: 90 * SECOND,
        lxmf_propagation_enabled: true,
        lxmf_propagation_autopeer: false,
        lxmf_propagation_peers: Vec::new(),
    }
}

fn node_with(config: NodeConfig) -> FedNode {
    FedNode::new(vec![0xEE; 16], config, Vec::new(), Vec::new(), Vec::new(), Vec::new(), Vec::new())
}

fn node() -> FedNode {
    node_with(config())
}

fn signed(value: &[u8], who: u8) -> Result<Signed, PayloadError> {
    Ok(Signed { value: value.to_vec(), identity_hash: vec![who; 16], public_key: vec![who; 64] })
}

fn encode(value: &rmpv::Value) -> Vec<u8> {
    let mut buf = Vec::new();
    rmpv::encode::write_value(&mut buf, value).expect("encode");
    buf
}

fn decode(bytes: &[u8]) -> rmpv::Value {
    rmpv::decode::read_value(&mut std::io::Cursor::new(bytes)).expect("decode")
}

fn bin(b: &[u8]) -> rmpv::Value {
    rmpv::Value::Binary(b.to_vec())
}

fn yes() -> Vec<u8> {
    vec![0xc3]
}

fn no() -> Vec<u8> {
    vec![0xc2]
}

/// A signing key and the public keys of its identity.
fn keys(seed: u8) -> (SecretKey, PublicKey, Vec<u8>) {
    let secret = SecretKey::from_bytes(&[seed; 32]).expect("seed");
    let public = PublicKey::from(&secret);
    let mut all = vec![seed; 32];
    all.extend_from_slice(public.as_bytes());
    (secret, public, all)
}

/// Looks at the keys and the signature of a request, as a node does.
fn verified(data: &[u8]) -> Result<Signed, PayloadError> {
    let payload = open_signed_payload(data)?;
    let key = PublicKey::from_bytes(&payload.public_key[32..64]);
    let holds = match (&key, Signature::from_bytes(&payload.signature)) {
        (Ok(k), Ok(s)) => k.verify(&payload.value, &s).is_ok(),
        _ => false,
    };
    verify_signed_payload(payload, key.map(|_| ()).map_err(|e| e.to_string()), holds)
}

fn request(seed: u8, value: &[u8]) -> Vec<u8> {
    let (secret, public, all) = keys(seed);
    let signature = ExpandedSecretKey::from(&secret).sign(value, &public).to_bytes().to_vec();
    encode_signed_payload(value.to_vec(), all, signature)
}

#[test]
fn a_signed_request_is_understood_and_its_signer_known() {
    let (_, _, all) = keys(1);
    let s = match verified(&request(1, b"hello")) {
        Ok(s) => s,
        Err(e) => panic!("{}", e.text()),
    };
    assert_eq!(s.value, b"hello");
    assert_eq!(s.public_key, all);
    assert_eq!(s.identity_hash, sha2::Sha256::digest(&all)[..16].to_vec());
}

fn refusal(data: &[u8]) -> String {
    match verified(data) {
        Ok(_) => panic!("the request is to be refused"),
        Err(e) => e.text(),
    }
}

#[test]
fn every_fault_of_a_signed_request_is_told() {
    let arr = |items: Vec<rmpv::Value>| encode(&rmpv::Value::Array(items));
    assert_eq!(
        refusal(&[]),
        "msgpack decode: I/O error while reading marker byte: failed to fill whole buffer",
    );
    assert_eq!(refusal(&encode(&rmpv::Value::Nil)), "expected fixarray-3, got Nil");
    assert_eq!(refusal(&arr(vec![bin(b"a")])), "expected fixarray-3, got Array([Binary([97])])");
    assert_eq!(
        refusal(&arr(vec![rmpv::Value::from(-3), bin(&[0; 64]), bin(&[0; 64])])),
        "payload[0] not bin/str: Integer(NegInt(-3))",
    );
    assert_eq!(refusal(&arr(vec![bin(b"a"), rmpv::Value::Nil, bin(&[0; 64])])), "payload[1] not bin (pubkey)");
    assert_eq!(refusal(&arr(vec![bin(b"a"), bin(&[0; 64]), rmpv::Value::Nil])), "payload[2] not bin (sig)");
    assert_eq!(refusal(&arr(vec![bin(b"a"), bin(&[0; 63]), bin(&[0; 64])])), "pubkey len 63 != 64");
    assert_eq!(refusal(&arr(vec![bin(b"a"), bin(&[0; 64]), bin(&[0; 65])])), "sig len 65 != 64");
    let mut tampered = request(2, b"hello");
    let last = tampered.len() - 1;
    tampered[last] ^= 1;
    assert_eq!(refusal(&tampered), "signature verification failed");
    let payload = SignedPayload { value: vec![], public_key: vec![0; 64], signature: vec![0; 64] };
    match verify_signed_payload(payload, Err("no point".to_string()), true) {
        Err(e) => assert_eq!(e.text(), "from_public_key: no point"),
        Ok(_) => panic!("an invalid key is refused"),
    }
}

#[test]
fn a_text_is_signed_as_its_bytes() {
    let value = Decoded::Array(vec![
        Decoded::Str("ab".to_string()),
        Decoded::Binary(vec![1; 64]),
        Decoded::Binary(vec![2; 64]),
    ]);
    match signed_payload(&value) {
        Ok(p) => assert_eq!(p.value, b"ab"),
        Err(e) => panic!("{e:?}"),
    }
    let raw = Decoded::Array(vec![
        Decoded::RawStr(vec![0xFF]),
        Decoded::Binary(vec![1; 64]),
        Decoded::Binary(vec![2; 64]),
    ]);
    match signed_payload(&raw) {
        Ok(p) => assert_eq!(p.value, vec![0xFF]),
        Err(e) => panic!("{e:?}"),
    }
    assert_eq!(decode_msgpack_bin(&encode(&bin(b"xyz"))), b"xyz");
    assert!(decode_msgpack_bin(&encode(&rmpv::Value::Nil)).is_empty());
}

#[test]
fn a_subscription_is_made_passed_on_and_ended() {
    let mut n = node();
    let reply = decode(&n.on_subscribe(signed(&[0xC1; 16], 1), 5));
    assert_eq!(reply, rmpv::Value::Array(vec![rmpv::Value::Boolean(true), rmpv::Value::from(16)]));
    assert!(n.subscription_table.is_subscribed(&[1; 16], &[0xC1; 16]));
    assert_eq!(n.pending_backup_pushes, vec![(vec![1; 16], vec![0xC1; 16])]);
    assert_eq!(n.on_subscribe(signed(&[0xC1; 15], 1), 5), no());
    assert_eq!(n.on_subscribe(Err(PayloadError::BadSignature), 5), no());
    assert_eq!(n.on_unsubscribe(Err(PayloadError::BadSignature)), no());
    assert!(n.subscription_table.is_subscribed(&[1; 16], &[0xC1; 16]));
    assert_eq!(n.on_unsubscribe(signed(&[0xC1; 16], 1)), yes());
    assert!(!n.subscription_table.is_subscribed(&[1; 16], &[0xC1; 16]));
}

#[test]
fn no_more_than_a_thousand_subscriptions_wait_to_be_passed_on() {
    let mut n = node();
    for i in 0..1030u32 {
        let mut channel = vec![0u8; 16];
        channel[..4].copy_from_slice(&i.to_be_bytes());
        n.on_subscribe(signed(&channel, 1), 1);
    }
    assert_eq!(n.pending_backup_pushes.len(), 1024);
    assert_eq!(n.subscription_table.len(), 1030);
}

fn page(reply: &[u8]) -> (Vec<u8>, bool) {
    let v = decode(reply);
    let outer = v.as_array().unwrap();
    let blobs = outer[0].as_array().unwrap().iter().map(|p| p.as_array().unwrap()[1].as_slice().unwrap()[0]).collect();
    (blobs, outer[1].as_bool().unwrap())
}

#[test]
fn pages_follow_each_other_until_nothing_is_left() {
    let mut n = node();
    for i in 0..30u8 {
        n.deferred_queue.enqueue(vec![1; 16], vec![0xC1; 16], vec![i], 64, 1);
    }
    n.deferred_queue.enqueue(vec![2; 16], vec![0xC1; 16], vec![99], 64, 1);
    assert_eq!(n.on_pull(None), vec![0xcc, 0xf0], "a caller has to identify itself");
    let (first, more) = page(&n.on_pull(Some(&[1; 16])));
    assert_eq!(first, (0..25).collect::<Vec<u8>>());
    assert!(more);
    let (second, more) = page(&n.on_pull(Some(&[1; 16])));
    assert_eq!(second, (25..30).collect::<Vec<u8>>());
    assert!(!more);
    assert_eq!(page(&n.on_pull(Some(&[2; 16]))), (vec![99], false));
    assert_eq!(page(&n.on_pull(Some(&[2; 16]))), (vec![], false));
}

#[test]
fn a_channel_pull_takes_one_channel_by_the_page_of_the_tier() {
    let mut cfg = config();
    cfg.default_policy.deferred_pull_batch_limit = Some(2);
    let mut n = node_with(cfg);
    for i in 0..3u8 {
        n.deferred_queue.enqueue(vec![1; 16], vec![0xC1; 16], vec![i], 64, 1);
        n.deferred_queue.enqueue(vec![1; 16], vec![0xC2; 16], vec![10 + i], 64, 1);
    }
    assert_eq!(n.on_channel_pull(None, &[0xC1; 16]), vec![0xcc, 0xf0]);
    assert_eq!(page(&n.on_channel_pull(Some(&[1; 16]), &[0xC1; 16])), (vec![0, 1], true));
    assert_eq!(page(&n.on_channel_pull(Some(&[1; 16]), &[0xC1; 3])), (vec![], false));
    assert_eq!(page(&n.on_channel_pull(Some(&[1; 16]), &encode(&bin(&[0xC1; 16])))), (vec![2], false));
    assert_eq!(n.deferred_queue.total_len(), 3);
}

#[test]
fn a_packet_for_a_channel_is_taken_apart() {
    let mut policy = TierPolicy::default();
    policy.stamp_cost = Some(0);
    let data: Vec<u8> = (0..60).collect();
    let frame = open_send(&policy, &data).ok().expect("frame");
    assert_eq!(frame.channel_hash, data[..16].to_vec());
    assert_eq!(frame.inner_blob, data[16..].to_vec());
    assert!(frame.check.is_none() && is_accepted(&frame, false));
    policy.stamp_cost = Some(16);
    let frame = open_send(&policy, &data).ok().expect("frame");
    assert_eq!(frame.inner_blob, data[16..28].to_vec());
    assert!(!is_accepted(&frame, false) && is_accepted(&frame, true));
    let check = frame.check.expect("a stamp is asked for");
    assert_eq!(check.stamp, data[28..].to_vec());
    assert_eq!(check.transient_id, sha2::Sha256::digest(&data[..28]).to_vec());
    assert_eq!(check.min_cost, 13);
    assert_eq!(open_send(&policy, &data[..16]).err(), Some(SendError::TooShort));
    assert_eq!(open_send(&policy, &data[..48]).err(), Some(SendError::NoRoomForStamp));
    assert!(open_send(&policy, &data[..49]).is_ok());
}

#[test]
fn unsent_blobs_wait_again_in_their_order() {
    let mut n = node();
    for i in 0..4u8 {
        n.deferred_queue.enqueue(vec![1; 16], vec![0xC1; 16], vec![i], 64, 1);
    }
    let taken = n.take_deferred(&[1; 16]);
    assert_eq!(taken.len(), 4);
    assert!(!n.deferred_queue.has_pending(&[1; 16]));
    let failed: Vec<PendingBlob> = taken.into_iter().skip(1).collect();
    n.requeue_deferred(&[1; 16], failed, 9);
    let again: Vec<u8> = n.take_deferred(&[1; 16]).iter().map(|b| b.blob[0]).collect();
    assert_eq!(again, vec![1, 2, 3]);
}

const RELAY: &str = "0123456789abcdef0123456789abcdef";

fn command(op: &str, relay: &str, channel: Option<&[u8]>) -> Vec<u8> {
    encode(&rmpv::Value::Array(vec![
        rmpv::Value::from(op),
        rmpv::Value::from(relay),
        match channel {
            Some(c) => bin(c),
            None => rmpv::Value::Nil,
        },
    ]))
}

#[test]
fn a_relay_is_registered_under_the_subscriber_or_its_message_address() {
    let mut n = node();
    let r = n.on_notify_request(signed(&command("register", RELAY, Some(&[0xC1; 16])), 1), None, 3);
    assert_eq!(r.reply, yes());
    let named = r.relay.expect("a relay is named");
    assert_eq!(hex(&named.relay_hash), RELAY);
    assert_eq!(named.key, None, "the keys of the subscriber are not those of the relay");
    let own = hex(&destination_hash(&[1; 16], "rfed", &["notify"]));
    let r = n.on_notify_request(signed(&command("register", &own, Some(&[0xC2; 16])), 1), None, 3);
    assert_eq!(r.relay.expect("a relay is named").key, Some(vec![1; 64]));
    n.on_notify_request(signed(&command("unregister", &own, Some(&[0xC2; 16])), 1), None, 3);
    assert_eq!(n.notify_registry.get_for_channel(&[1; 16], Some(&[0xC1; 16])).len(), 1);
    let r = n.on_notify_request(signed(&command("register", RELAY, None), 1), Some(NotifyCommandKind::Register), 3);
    assert_eq!(r.reply, yes());
    let address = destination_hash(&[1; 16], "lxmf", &["delivery"]);
    assert_eq!(n.notify_registry.get_for_channel(&address, None).len(), 1);
    assert_eq!(n.notify_registry.get_for_channel(&[1; 16], None).len(), 1);
    assert_eq!(n.notify_registry.count(), 3);
    n.on_notify_request(signed(&command("register", RELAY, None), 1), None, 4);
    assert_eq!(n.notify_registry.count(), 3, "the same relay is renewed");
    assert_eq!(n.notify_registry.get_for_channel(&address, None)[0].registered, 4);
    assert_eq!(n.notify_registry.get_for_channel(&[1; 16], None)[0].registered, 4);
    let r = n.on_notify_request(signed(&command("unregister", RELAY, None), 1), None, 4);
    assert_eq!(r.reply, yes());
    assert!(r.relay.is_none());
    assert_eq!(n.notify_registry.count(), 1);
    assert_eq!(n.notify_registry.get_for_channel(&[1; 16], Some(&[0xC1; 16])).len(), 1);
    n.on_notify_request(signed(&command("register", RELAY, None), 1), None, 4);
    n.on_notify_request(signed(&command("register", RELAY, None), 2), None, 4);
    assert_eq!(n.notify_registry.count(), 5);
    let r = n.on_notify_request(signed(&[], 1), Some(NotifyCommandKind::Clear), 4);
    assert_eq!(r.reply, yes());
    assert_eq!(n.notify_registry.count(), 2, "only the relay of the other subscriber is left");
}

#[test]
fn a_relay_for_no_channel_stands_under_both_hashes() {
    let mut n = node();
    let r = n.on_notify_request(signed(&command("register", RELAY, None), 1), None, 3);
    assert_eq!(r.reply, yes());
    let stored: Vec<(Vec<u8>, Option<Vec<u8>>, String, u64)> = n
        .notify_registry
        .registrations()
        .iter()
        .map(|r| (r.subscriber_hash.clone(), r.channel_hash.clone(), r.relay_hash.clone(), r.registered))
        .collect();
    let address = destination_hash(&[1; 16], "lxmf", &["delivery"]);
    assert_eq!(stored, vec![(vec![1; 16], None, RELAY.to_string(), 3), (address, None, RELAY.to_string(), 3)]);
}

#[test]
fn a_registration_is_refused_with_a_bad_relay_or_by_policy() {
    let mut cfg = config();
    cfg.default_policy.allow_notify_registration = false;
    let mut n = node_with(cfg);
    let r = n.on_notify_request(signed(&command("register", "abc", None), 1), None, 3);
    assert_eq!(r.reply, no());
    assert!(r.relay.is_none());
    let r = n.on_notify_request(signed(&command("register", "", None), 1), None, 3);
    assert_eq!(r.reply, no());
    let r = n.on_notify_request(signed(&command("register", RELAY, None), 1), None, 3);
    assert_eq!(r.reply, no());
    assert!(r.relay.is_some(), "a path to the relay is asked for all the same");
    assert_eq!(n.notify_registry.count(), 0);
    let r = n.on_notify_request(Err(PayloadError::BadSignature), None, 3);
    assert_eq!(r.reply, no());
}

fn parse_error(bytes: &[u8], kind: Option<NotifyCommandKind>) -> String {
    match parse_notify_command(bytes, kind) {
        Ok(_) => panic!("no command is made"),
        Err(e) => e,
    }
}

#[test]
fn commands_are_read_in_both_forms() {
    assert_eq!(parse_error(&command("reset", RELAY, None), None), "unknown notify op 'reset'");
    assert_eq!(
        parse_error(&command("clear", RELAY, None), Some(NotifyCommandKind::Register)),
        "notify op mismatch: payload=Clear handler=Register",
    );
    assert_eq!(parse_error(RELAY.as_bytes(), None), "notify DATA payload missing op");
    let c = parse_notify_command(RELAY.as_bytes(), Some(NotifyCommandKind::Register)).expect("bare text");
    assert_eq!(c.relay_hash.as_deref(), Some(RELAY));
    assert_eq!(c.channel_hash, None);
    let pair = encode(&rmpv::Value::Array(vec![rmpv::Value::from(RELAY), bin(&[0xC1; 16])]));
    let c = parse_notify_command(&pair, Some(NotifyCommandKind::Unregister)).expect("pair");
    assert_eq!(c.kind, NotifyCommandKind::Unregister);
    assert_eq!(c.relay_hash.as_deref(), Some(RELAY));
    assert_eq!(c.channel_hash, Some(vec![0xC1; 16]));
    let short = Decoded::Array(vec![Decoded::Str("clear".to_string()), Decoded::Nil, Decoded::Binary(vec![1; 15])]);
    let c = notify_command(&[9], Some(&short), None).expect("long form");
    assert_eq!(c.kind, NotifyCommandKind::Clear);
    assert_eq!(c.relay_hash, None);
    assert_eq!(c.channel_hash, None);
}

#[test]
fn a_stream_of_channels_needs_a_link_a_signature_and_the_subscriptions() {
    let mut n = node();
    n.on_subscribe(signed(&[0xC1; 16], 1), 1);
    let reason = |reply: Vec<u8>| {
        let v = decode(&reply);
        let a = v.as_array().unwrap();
        (a[0].as_bool().unwrap(), a[1].as_str().map(|s| s.to_string()))
    };
    assert_eq!(reason(n.on_channel_stream_open(None, signed(&[0xC1; 16], 1))), (false, Some("no_link".to_string())));
    assert_eq!(
        reason(n.on_channel_stream_open(Some(&[7; 16]), Err(PayloadError::BadSignature))),
        (false, Some("bad_signature".to_string())),
    );
    assert_eq!(
        reason(n.on_channel_stream_open(Some(&[7; 16]), signed(&[0xC1; 3], 1))),
        (false, Some("bad_channel_config".to_string())),
    );
    let both = encode(&rmpv::Value::Array(vec![bin(&[0xC1; 16]), bin(&[0xC2; 16])]));
    assert_eq!(
        reason(n.on_channel_stream_open(Some(&[7; 16]), signed(&both, 1))),
        (false, Some("not_subscribed".to_string())),
    );
    assert_eq!(reason(n.on_channel_stream_open(Some(&[7; 16]), signed(&[0xC1; 16], 1))), (true, None));
    assert_eq!(n.channel_streams.links(&[1; 16], &[0xC1; 16]), vec![vec![7; 16]]);
    assert_eq!(encode_stream_open_response(true, None), vec![0x92, 0xc3, 0xc0]);
}

#[test]
fn a_stream_of_messages_is_opened_for_the_signers_own_address() {
    let mut n = node();
    let own = lxmf_delivery_hash_from_pubkey(&[1; 64]);
    let reason = |reply: Vec<u8>| decode(&reply).as_array().unwrap()[1].as_str().map(|s| s.to_string());
    assert_eq!(reason(n.on_propagation_stream_open(None, signed(&own, 1))), Some("no_link".to_string()));
    assert_eq!(
        reason(n.on_propagation_stream_open(Some(&[7; 16]), Err(PayloadError::BadSignature))),
        Some("bad_signature".to_string()),
    );
    assert_eq!(
        reason(n.on_propagation_stream_open(Some(&[7; 16]), signed(&own[..15], 1))),
        Some("bad_delivery_hash".to_string()),
    );
    assert_eq!(
        reason(n.on_propagation_stream_open(Some(&[7; 16]), signed(&own, 2))),
        Some("delivery_mismatch".to_string()),
    );
    assert_eq!(reason(n.on_propagation_stream_open(Some(&[7; 16]), signed(&own, 1))), None);
    assert_eq!(n.propagation_streams.links(&own), vec![vec![7; 16]]);
    assert_eq!(
        reason(n.on_propagation_stream_open(Some(&[7; 16]), signed(&own, 1))),
        Some("already_open".to_string()),
    );
    let mut cfg = config();
    cfg.lxmf_propagation_enabled = false;
    let mut off = node_with(cfg);
    assert_eq!(
        reason(off.on_propagation_stream_open(Some(&[7; 16]), signed(&own, 1))),
        Some("feature_disabled".to_string()),
    );
}

#[test]
fn a_device_is_registered_listed_and_taken_out() {
    let mut n = node();
    let distro = lxmf_delivery_hash_from_pubkey(&[1; 64]);
    let device = lxmf_delivery_hash_from_pubkey(&[2; 64]);
    assert_eq!(n.on_distro_registration(signed(&[2; 64], 1), Ok(()), true, 5), yes());
    assert!(n.distro_table.is_distro(&distro));
    let list: Vec<Vec<u8>> = rmp_serde::from_slice(&n.on_distro_list(signed(&[], 1))).expect("list");
    assert_eq!(list, vec![device]);
    let none: Vec<Vec<u8>> = rmp_serde::from_slice(&n.on_distro_list(Err(PayloadError::BadSignature))).expect("list");
    assert!(none.is_empty());
    n.distro_announces.put(distro.clone(), vec![1; 200], false, 1);
    assert_eq!(n.on_distro_registration(signed(&[2; 64], 1), Ok(()), false, 6), yes());
    assert!(!n.distro_table.is_distro(&distro));
    assert_eq!(n.distro_announces.len(), 0, "the announce goes with the last device");
}

#[test]
fn a_registration_of_a_device_is_refused_with_a_reason() {
    let mut n = node();
    let mut error = |s: Result<Signed, PayloadError>, key: Result<(), String>| {
        n.handle_distro_registration(s, key, true, 1).unwrap_err()
    };
    assert_eq!(error(Err(PayloadError::BadSignature), Ok(())), "bad signature: signature verification failed");
    assert_eq!(error(signed(&[2; 63], 1), Ok(())), "device_pubkey len 63 != 64");
    let odd = Signed { value: vec![2; 64], identity_hash: vec![1; 16], public_key: vec![1; 32] };
    assert_eq!(error(Ok(odd), Ok(())), "distro_pubkey len 32 != 64");
    assert_eq!(error(signed(&[2; 64], 1), Err("off curve".to_string())), "device pubkey invalid: off curve");
    assert_eq!(n.on_distro_registration(signed(&[2; 63], 1), Ok(()), true, 1), no());
    assert_eq!(n.distro_table.len(), 0);
}

#[test]
fn an_announce_is_held_once_a_device_is_registered() {
    let mut n = node();
    let (secret, public, all) = keys(3);
    let distro = lxmf_delivery_hash_from_pubkey(&all);
    let name = sha2::Sha256::digest(b"lxmf.delivery")[..10].to_vec();
    let to_sign = [distro.clone(), all.clone(), name.clone(), vec![0x5A; 10]].concat();
    let signature = ExpandedSecretKey::from(&secret).sign(&to_sign, &public).to_bytes().to_vec();
    let announce = [all.clone(), name, vec![0x5A; 10], signature].concat();
    let value = [vec![0u8], announce.clone()].concat();
    let s = Signed { value, identity_hash: vec![9; 16], public_key: all.clone() };
    let open = || match open_announce_request(&s) {
        Ok(r) => r,
        Err(e) => panic!("{e}"),
    };
    let r = open();
    assert_eq!(r.parts.signed_data, to_sign);
    assert!(r.parts.names_delivery);
    assert_eq!(n.accept_distro_announce(r, Ok(()), true, 1).unwrap_err(), "no device registered");
    n.distro_table.register(distro.clone(), vec![4; 16], vec![4; 64], 1);
    assert_eq!(
        n.accept_distro_announce(open(), Ok(()), false, 1).unwrap_err(),
        "announce signature verification failed",
    );
    assert_eq!(n.accept_distro_announce(open(), Ok(()), true, 2).unwrap(), distro);
    assert_eq!(n.distro_announces.get(&distro).unwrap().announce_data, announce);
    let end = n.on_distro_announce(Ok(open()), Ok(()), true, 3);
    assert_eq!((end.reply, end.replay), (yes(), Some(distro.clone())));
    assert_eq!(n.distro_announces.get(&distro).unwrap().updated, 3);
    let end = n.on_distro_announce(Ok(open()), Err("bad point".to_string()), true, 4);
    assert_eq!((end.reply, end.replay), (no(), None));
    let end = n.on_distro_announce(Err("empty announce payload".to_string()), Ok(()), true, 4);
    assert_eq!((end.reply, end.replay), (no(), None));
    assert_eq!(n.distro_announces.get(&distro).unwrap().updated, 3);
    let other = Signed { value: s.value.clone(), identity_hash: vec![9; 16], public_key: vec![1; 64] };
    let refusal = |s: &Signed| open_announce_request(s).err();
    assert_eq!(
        refusal(&other).unwrap(),
        "announce public key does not match the registering distro key",
    );
    let short = Signed { value: vec![1; 100], identity_hash: vec![9; 16], public_key: all.clone() };
    assert_eq!(refusal(&short).unwrap(), "announce_data len 99 < minimum 180");
    let empty = Signed { value: vec![], identity_hash: vec![9; 16], public_key: all };
    assert_eq!(refusal(&empty).unwrap(), "empty announce payload");
}

#[test]
fn subscriptions_are_held_for_a_trusted_node() {
    let owner = Service::Node.hash(&sha2::Sha256::digest([1u8; 64])[..16]);
    let pairs = vec![(vec![5; 16], vec![0xC1; 16]), (vec![6; 16], vec![0xC2; 16])];
    let value = encode_backup_pairs(&pairs);
    let mut n = node();
    assert_eq!(n.on_backup_push(signed(&value, 1), 7), yes());
    let held = n.subscription_table.get_subscribers_with_owner(&[0xC1; 16]);
    assert_eq!(held, vec![(vec![5; 16], Some(owner.clone()))]);
    assert_eq!(n.on_backup_push(signed(b"\xc1", 1), 7), no());
    assert_eq!(n.on_backup_push(Err(PayloadError::BadSignature), 7), no());
    let mut cfg = config();
    cfg.trusted_backup_peers = vec![vec![0x77; 16]];
    let mut wary = node_with(cfg);
    assert_eq!(wary.on_backup_push(signed(&value, 1), 7), no());
    let mut cfg = config();
    cfg.trusted_backup_peers = vec![vec![0x77; 16], owner];
    let mut trusting = node_with(cfg);
    assert_eq!(trusting.on_backup_push(signed(&value, 1), 7), yes());
    assert_eq!(trusting.subscription_table.len(), 2);
}

#[test]
fn the_backup_node_is_chosen_by_configuration_then_by_freshness() {
    let peer = |h: u8, alive: bool, last_heard: u64| SyncPeer { destination_hash: vec![h; 16], alive, last_heard };
    let peers = vec![peer(1, true, 5), peer(2, true, 9), peer(3, false, 99)];
    let mut n = node();
    assert_eq!(n.resolve_backup(&peers), Some(vec![2; 16]));
    assert_eq!(n.selected_backups, vec![vec![2; 16]]);
    let later = vec![peer(1, true, 50), peer(2, true, 9)];
    assert_eq!(n.resolve_backup(&later), Some(vec![2; 16]), "the choice is kept while it is there");
    assert_eq!(n.resolve_backup(&vec![peer(2, false, 9)]), None);
    assert!(n.selected_backups.is_empty());
    n.config.secondary_nodes = vec![vec![3; 16], vec![1; 16]];
    assert_eq!(n.resolve_backup(&peers), Some(vec![1; 16]));
    assert_eq!(n.resolve_backup(&Vec::new()), Some(vec![3; 16]));
    n.config.primary_node = Some(vec![3; 16]);
    assert_eq!(n.resolve_backup(&peers), Some(vec![1; 16]));
    assert_eq!(n.resolve_backup(&Vec::new()), Some(vec![3; 16]));
    n.config.primary_node = Some(vec![2; 16]);
    assert_eq!(n.resolve_backup(&peers), Some(vec![2; 16]));
}

#[test]
fn a_peer_that_is_there_takes_the_place_of_designated_nodes_that_are_gone() {
    let peer = |h: u8, alive: bool, last_heard: u64| SyncPeer { destination_hash: vec![h; 16], alive, last_heard };
    let mut cfg = config();
    cfg.primary_node = Some(vec![1; 16]);
    cfg.secondary_nodes = vec![vec![2; 16]];
    let mut n = node_with(cfg);
    let gone = vec![peer(1, false, 90), peer(2, false, 80), peer(3, true, 5), peer(4, true, 9)];
    n.pending_backup_pushes = vec![(vec![5; 16], vec![0xC1; 16])];
    let round = n.tick_backup_delivery(&gone, 100);
    assert_eq!(round.backup, Some(vec![4; 16]));
    assert_eq!(round.push, vec![(vec![5; 16], vec![0xC1; 16])]);
    assert_eq!(n.selected_backups, vec![vec![4; 16]]);
    let later = vec![peer(1, false, 90), peer(3, true, 50), peer(4, true, 9)];
    assert_eq!(n.resolve_backup(&later), Some(vec![4; 16]));
    let back = vec![peer(2, true, 1), peer(4, true, 99)];
    assert_eq!(n.resolve_backup(&back), Some(vec![2; 16]));
    let all_gone = vec![peer(1, false, 90), peer(4, false, 9)];
    assert_eq!(n.resolve_backup(&all_gone), Some(vec![1; 16]));
    assert!(n.selected_backups.is_empty());
}

#[test]
fn only_a_trusted_node_is_the_backup_node_where_that_is_asked_for() {
    let peer = |h: u8, last_heard: u64| SyncPeer { destination_hash: vec![h; 16], alive: true, last_heard };
    let mut cfg = config();
    cfg.default_policy.trusted_backup_only = true;
    let mut n = node_with(cfg);
    let peers = vec![peer(1, 5), peer(2, 9), peer(3, 7)];
    assert_eq!(n.resolve_backup(&peers), None);
    n.config.trusted_backup_peers = vec![vec![1; 16], vec![3; 16]];
    assert_eq!(n.resolve_backup(&peers), Some(vec![3; 16]));
    assert_eq!(n.selected_backups, vec![vec![3; 16]]);
    n.config.trusted_backup_peers = vec![vec![1; 16]];
    assert_eq!(n.resolve_backup(&peers), Some(vec![1; 16]), "a choice that is not trusted does not stand");
    n.config.primary_node = Some(vec![2; 16]);
    n.config.secondary_nodes = vec![vec![4; 16], vec![1; 16]];
    assert_eq!(n.resolve_backup(&peers), Some(vec![1; 16]));
    assert_eq!(n.resolve_backup(&Vec::new()), Some(vec![1; 16]));
    n.config.trusted_backup_peers = Vec::new();
    assert_eq!(n.resolve_backup(&Vec::new()), None);
}

#[test]
fn a_round_passes_on_prunes_and_finds_orphans() {
    let mut n = node();
    n.subscription_table.subscribe(vec![1; 16], vec![0xC1; 16], 0);
    n.subscription_table.subscribe_backup(vec![2; 16], vec![0xC1; 16], vec![0xA1; 16], 0);
    let now = 300 * SECOND;
    n.subscription_table.subscribe_backup(vec![3; 16], vec![0xC1; 16], vec![0xA2; 16], now);
    n.subscription_table.subscribe_backup(vec![4; 16], vec![0xC2; 16], vec![0xA3; 16], now);
    n.pending_backup_pushes = vec![(vec![1; 16], vec![0xC1; 16])];
    let heard = SyncPeer { destination_hash: vec![0xA3; 16], alive: true, last_heard: now - 10 * SECOND };
    let round = n.tick_backup_delivery(&vec![heard], now);
    assert_eq!(round.backup, Some(vec![0xA3; 16]));
    assert_eq!(round.push, vec![(vec![1; 16], vec![0xC1; 16])]);
    assert!(n.pending_backup_pushes.is_empty());
    assert_eq!(round.pruned, 1);
    assert_eq!(round.orphans, vec![(vec![3; 16], vec![0xC1; 16], vec![0xA2; 16])]);
    n.requeue_backup_pairs(round.push);
    let round = n.tick_backup_delivery(&Vec::new(), now);
    assert_eq!(round.backup, None);
    assert!(round.push.is_empty());
    assert_eq!(n.pending_backup_pushes.len(), 1);
    assert_eq!(round.orphans.len(), 2);
    assert_eq!(backup_ttl(12 * SECOND), 90 * SECOND);
    assert_eq!(backup_ttl(90 * SECOND), 180 * SECOND);
    assert_eq!(backup_ttl(u64::MAX), u64::MAX);
}

#[test]
fn an_orphan_is_taken_over_once_there_is_something_to_deliver() {
    let mut n = node();
    n.notify_registry.register_for_channel(vec![3; 16], Some(vec![0xC1; 16]), RELAY.to_string(), 1);
    let none = n.fail_over(&[3; 16], &[0xC1; 16], &Vec::new(), 1);
    assert!(!none.adopted && none.wake.is_empty());
    assert!(n.needs_blobs(&[3; 16]));
    let some = n.fail_over(&[3; 16], &[0xC1; 16], &vec![vec![1], vec![2]], 1);
    assert!(some.adopted);
    assert_eq!(some.wake.len(), 1);
    assert_eq!(n.deferred_queue.total_len(), 2);
    assert!(!n.needs_blobs(&[3; 16]));
    let again = n.fail_over(&[3; 16], &[0xC1; 16], &vec![vec![1], vec![2]], 1);
    assert!(again.adopted && again.wake.is_empty());
    assert_eq!(n.deferred_queue.total_len(), 2);
    let taken: Vec<u8> = n.take_deferred(&[3; 16]).iter().map(|b| b.blob[0]).collect();
    assert_eq!(taken, vec![1, 2]);
}

#[test]
fn a_backup_push_waits_unless_a_link_is_being_opened() {
    for reach in [Reach::NotReady, Reach::UnknownIdentity, Reach::NoDestination, Reach::NoLink] {
        let plan = plan_backup_push(reach);
        assert!(plan.requeue);
        assert_eq!(plan.request_path, reach == Reach::UnknownIdentity);
    }
    assert!(!plan_backup_push(Reach::Opening).requeue);
    assert!(backup_accepted(Some(&[0xc3])));
    assert!(!backup_accepted(Some(&[0xc2])));
    assert!(!backup_accepted(Some(&[])));
    assert!(!backup_accepted(None));
}

#[test]
fn an_exchange_asks_for_what_lacks_and_is_wanted() {
    let mut n = node();
    n.on_subscribe(signed(&[0xC1; 16], 1), 1);
    n.distro_table.register(vec![0xD1; 16], vec![2; 16], vec![2; 64], 1);
    n.blob_store.record(vec![1; 16], vec![0xC1; 16], 10, 1);
    let offered: Vec<Vec<u8>> = rmp_serde::from_slice(&n.offer_payload()).expect("ids");
    assert_eq!(offered, vec![vec![1; 16]]);
    let manifest: Vec<(Vec<u8>, Vec<u8>)> = rmp_serde::from_slice(&n.on_offer(&[])).expect("pairs");
    assert_eq!(manifest, vec![(vec![0xC1; 16], vec![1; 16])]);
    assert!(matches!(n.on_offer_answer(None), SessionStep::Finish(false)));
    assert!(matches!(n.on_offer_answer(Some(b"junk")), SessionStep::Finish(true)));
    let theirs: Vec<(Vec<u8>, Vec<u8>)> = vec![
        (vec![0xC1; 16], vec![1; 16]),
        (vec![0xC1; 16], vec![2; 16]),
        (vec![0xC9; 16], vec![3; 16]),
        (vec![0xD1; 16], vec![4; 16]),
    ];
    match n.on_offer_answer(Some(&rmp_serde::to_vec(&theirs).unwrap())) {
        SessionStep::Fetch(payload) => {
            assert_eq!(FedNode::requested_ids(&payload), vec![vec![2; 16], vec![4; 16]]);
        },
        SessionStep::Finish(_) => panic!("two blobs are lacking"),
    }
    assert!(FedNode::requested_ids(b"\xc0").is_empty());
    let blobs = vec![(vec![0xC1; 16], vec![2; 16], vec![7, 255]), (vec![0xC2; 16], vec![4; 16], vec![])];
    let sent = FedNode::encode_blobs(&blobs);
    assert_eq!(sent[..2], [0x92, 0x93], "two, each of three");
    assert_eq!(FedNode::decode_blobs(&sent), blobs);
    assert_eq!(FedNode::encode_blobs(&Vec::new()), vec![0x90]);
    assert!(FedNode::decode_blobs(b"\xc0").is_empty());
    let arrival = n.plan_arrival(&[0xC1; 16]);
    assert_eq!(arrival.plan.subscribers, vec![(vec![1; 16], None)]);
    assert_eq!(arrival.plan.limit_for(&[1; 16]), 256);
    assert!(arrival.devices.is_none());
    assert_eq!(n.plan_arrival(&[0xD1; 16]).devices.map(|d| d.len()), Some(1));
}

#[test]
fn missed_devices_wait_and_are_woken() {
    let mut n = node();
    n.notify_registry.register(vec![0x22; 16], RELAY.to_string(), 1);
    let device = |n: u8| Unconfirmed { queue_key: vec![n; 16], wake_key: vec![0x20 + n; 16] };
    let wake = n.defer_missed_devices(&vec![device(1), device(2)], &[0xD1; 16], b"m", 3);
    assert_eq!(wake.len(), 1);
    assert_eq!(wake[0].subscriber_hash, vec![0x22; 16]);
    assert!(n.deferred_queue.has_pending(&[1; 16]) && n.deferred_queue.has_pending(&[2; 16]));
    n.notify_registry.register(vec![0x21; 16], RELAY.to_string(), 1);
    n.notify_registry.register(vec![3; 16], RELAY.to_string(), 1);
    let relays = n.relays_of_missed(&vec![device(1), device(2), device(3)]);
    let who: Vec<Vec<u8>> = relays.into_iter().map(|r| r.subscriber_hash).collect();
    assert_eq!(who, vec![vec![0x21; 16], vec![0x22; 16]]);
    assert!(n.relays_of_missed(&Vec::new()).is_empty());
}

#[test]
fn a_peer_that_is_due_is_tried_and_tried_again_soon() {
    let mut n = node();
    assert!(n.wants_sync_link(&[1; 16]));
    let plan = n.sync_link_tried(&[1; 16], Reach::NotReady, 10);
    assert_eq!(plan.retry_at, Some(10 + 5 * SECOND));
    assert!(!plan.request_path && !plan.started);
    let plan = n.sync_link_tried(&[1; 16], Reach::UnknownIdentity, 10);
    assert!(plan.request_path && plan.retry_at.is_some());
    let plan = n.sync_link_tried(&[1; 16], Reach::NoLink, 10);
    assert!(plan.retry_at.is_none() && !plan.started);
    assert!(n.sync_link_tried(&[1; 16], Reach::Opening, 10).started);
    assert!(!n.wants_sync_link(&[1; 16]));
    n.keep_sync_links(Vec::new());
    assert!(n.wants_sync_link(&[1; 16]));
}

#[test]
fn a_node_tells_what_it_offers() {
    let mut cfg = config();
    cfg.secondary_nodes = vec![vec![1; 16]];
    cfg.default_policy.stamp_cost = None;
    let v = decode(&node_with(cfg).capabilities("rfed=abc"));
    let entries = v.as_map().expect("a table");
    let get = |key: &str| entries.iter().find(|(k, _)| k.as_str() == Some(key)).map(|(_, v)| v.clone());
    assert_eq!(entries.len(), 11);
    assert_eq!(get("protocol_version"), Some(rmpv::Value::from(1)));
    assert_eq!(get("display_name"), Some(rmpv::Value::from("node")));
    assert_eq!(get("build"), Some(rmpv::Value::from("rfed=abc")));
    assert_eq!(get("backup"), Some(rmpv::Value::from(true)));
    assert_eq!(get("stamp_cost"), Some(rmpv::Value::Nil));
    assert_eq!(get("lxmf_propagation"), Some(rmpv::Value::from(true)));
}

#[test]
fn the_nodes_own_announce_is_not_heard() {
    let n = node();
    let own = Service::Node.hash(&[0xEE; 16]);
    let data = rfed::announce::encode_node_announce("peer", Some(9));
    assert_eq!(n.heard_node(&own, &data), None);
    assert_eq!(n.heard_node(&[1; 16], &data), Some(Some(9)));
    assert_eq!(n.heard_node(&[1; 16], b""), Some(None));
}

#[test]
fn destinations_are_announced_with_the_cost_where_blobs_are_sent() {
    let n = node();
    let list = n.announce();
    assert_eq!(list.len(), 15);
    assert_eq!(list[0].service, Service::DistroRegister);
    let data = rfed::announce::encode_node_announce("node", Some(16));
    for a in &list {
        let told = a.service == Service::Node || a.service == Service::ChannelPublish;
        assert_eq!(a.app_data, if told { Some(data.clone()) } else { None });
    }
    let published = n.publish_destinations();
    assert_eq!(published.len(), 15);
    for p in &published {
        assert_eq!(p.refresh_secs, if p.service == Service::Node { 600 } else { 900 });
        let told = matches!(p.service, Service::Node | Service::Channel | Service::ChannelPublish);
        assert_eq!(p.app_data.is_some(), told);
    }
}
