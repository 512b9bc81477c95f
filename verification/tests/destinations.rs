use rfed::config::{effective_stamp_cost, NodeConfig, TierPolicy};
use rfed::deferred_queue::PendingBlob;
use rfed::destinations::backup::adopted_pairs_for_chain_extension;
use rfed::destinations::fed_node::Service;
use rfed::destinations::payload::{
    decode_channel_pull_request, decode_channel_stream_filters, encode_pull_response, encode_subscribe_response, Signed,
};
use rfed::destinations::{FedNode, APP_NAME, DEFAULT_PULL_PAGE_SIZE, STAMP_EXPAND_ROUNDS};
use rfed::digest::destination_hash;
use rfed::text::hex;

const TEST_IDENTITY_HASH: [u8; 16] = [
    0xc2, 0x87, 0xb8, 0x44, 0xb2, 0xb6, 0xf8, 0xd6, 0x01, 0x3b, 0x0a, 0x96, 0x2e, 0xb2, 0x10, 0x7b,
];

const RNS_PATH_REQUEST_HASH_HEX: &str = "6b9f66014d9853faab220fba47d02761";

fn dest_hash(aspect: &str) -> Vec<u8> {
    destination_hash(&TEST_IDENTITY_HASH, APP_NAME, &[aspect])
}

fn dest_hash_multi(aspects: &[&str]) -> Vec<u8> {
    destination_hash(&TEST_IDENTITY_HASH, APP_NAME, aspects)
}

fn pinned(service: Service, expected: &str) {
    assert_eq!(hex(&service.hash(&TEST_IDENTITY_HASH)), expected);
    assert_eq!(hex(&dest_hash_multi(&service.aspects())), expected);
}

#[test]
fn adopted_pairs_skip_bounce_back_to_owner() {
    let owner_hash = vec![0x11; 16];
    let next_backup_hash = vec![0x22; 16];
    let adopted = vec![
        (vec![0x31; 16], vec![0x41; 16], owner_hash.clone()),
        (vec![0x32; 16], vec![0x42; 16], next_backup_hash),
    ];
    let filtered = adopted_pairs_for_chain_extension(adopted, owner_hash.as_slice());
    assert_eq!(
        filtered,
        vec![(vec![0x32; 16], vec![0x42; 16])],
        "adopted entries must not be re-pushed back to the current owner"
    );
}

#[test]
fn app_name_is_rfed() {
    assert_eq!(APP_NAME, "rfed", "rfed APP_NAME constant must remain \"rfed\"");
}

#[test]
fn rfed_node_hash_is_pinned() {
    assert_eq!(hex(&dest_hash("node")), "0ae25bc66f4cd593dcf7028c50b5a06c");
    pinned(Service::Node, "0ae25bc66f4cd593dcf7028c50b5a06c");
}

#[test]
fn rfed_delivery_hash_is_pinned() {
    assert_eq!(hex(&dest_hash("delivery")), "bc675d73690974e490e261ec19b4c5d7");
    pinned(Service::Delivery, "bc675d73690974e490e261ec19b4c5d7");
}

#[test]
fn rfed_channel_hash_is_pinned() {
    assert_eq!(hex(&dest_hash("channel")), "b95521001a9c9af5bc0e33904bca56fb");
    pinned(Service::Channel, "b95521001a9c9af5bc0e33904bca56fb");
}

#[test]
fn rfed_notify_hash_is_pinned() {
    assert_eq!(hex(&dest_hash("notify")), "9233db1eefe3c75832ead85956111fbe");
    pinned(Service::Notify, "9233db1eefe3c75832ead85956111fbe");
}

#[test]
fn rfed_hashes_do_not_collide_with_rns_path_request() {
    for aspect in ["node", "delivery", "channel", "notify"] {
        let h = hex(&dest_hash(aspect));
        assert_ne!(h, RNS_PATH_REQUEST_HASH_HEX, "rfed.{aspect} hash must not collide with rnstransport.path.request");
    }
}

#[test]
fn rfed_hashes_are_pairwise_distinct() {
    let aspects = ["node", "delivery", "channel", "notify"];
    for i in 0..aspects.len() {
        for j in (i + 1)..aspects.len() {
            assert_ne!(
                dest_hash(aspects[i]),
                dest_hash(aspects[j]),
                "rfed.{} and rfed.{} must hash to distinct destinations",
                aspects[i],
                aspects[j],
            );
        }
    }
}

#[test]
fn rfed_channel_subscribe_hash_is_pinned() {
    pinned(Service::ChannelSubscribe, "459193a74f78e63da3d9539a616c827e");
}

#[test]
fn rfed_channel_unsubscribe_hash_is_pinned() {
    pinned(Service::ChannelUnsubscribe, "c461e8be136af87fc15350674c689ddc");
}

#[test]
fn rfed_channel_publish_hash_is_pinned() {
    pinned(Service::ChannelPublish, "d01e4e99d4c386bc35c96af49020495e");
}

#[test]
fn rfed_channel_pull_hash_is_pinned() {
    pinned(Service::ChannelPull, "a53c83985f076e6c2f00d0244e83b949");
}

#[test]
fn rfed_channel_stream_hash_is_pinned() {
    pinned(Service::ChannelStream, "4b8ea0df6f54a28914d68bf5ee3c54a9");
}

#[test]
fn rfed_propagation_stream_hash_is_pinned() {
    pinned(Service::PropagationStream, "1c95744608edb6ee17aa3220d93a8ffb");
}

#[test]
fn rfed_notify_register_hash_is_pinned() {
    pinned(Service::NotifyRegister, "71f8f6c9da1502ddc483f456bdce2e09");
}

#[test]
fn rfed_notify_unregister_hash_is_pinned() {
    pinned(Service::NotifyUnregister, "5874773fa010e7fc02bd93d106ea4668");
}

#[test]
fn rfed_distro_register_hash_is_pinned() {
    pinned(Service::DistroRegister, "6ed6295b6cf0fa6d8762643fdae065f3");
}

#[test]
fn rfed_distro_unregister_hash_is_pinned() {
    pinned(Service::DistroUnregister, "cae11f874f5f5527fdd4a3938d6ea5f0");
}

#[test]
fn rfed_distro_list_hash_is_pinned() {
    pinned(Service::DistroList, "fedb1d56c01ef1be44e3c4dd5ccbee18");
}

#[test]
fn rfed_split_aspects_distinct_from_legacy() {
    assert_ne!(dest_hash_multi(&["channel", "subscribe"]), dest_hash("channel"));
    assert_ne!(dest_hash_multi(&["channel", "unsubscribe"]), dest_hash("channel"));
    assert_ne!(dest_hash_multi(&["channel", "publish"]), dest_hash("channel"));
    assert_ne!(dest_hash_multi(&["channel", "pull"]), dest_hash("channel"));
    assert_ne!(dest_hash_multi(&["channel", "stream"]), dest_hash("channel"));
    assert_ne!(dest_hash_multi(&["notify", "register"]), dest_hash("notify"));
    assert_ne!(dest_hash_multi(&["notify", "unregister"]), dest_hash("notify"));
    assert_ne!(dest_hash_multi(&["distro", "register"]), dest_hash("notify"));
    assert_ne!(dest_hash_multi(&["distro", "unregister"]), dest_hash("notify"));
    assert_ne!(dest_hash_multi(&["distro", "list"]), dest_hash("notify"));
    for legacy in ["node", "delivery", "channel", "notify"] {
        assert_ne!(
            dest_hash_multi(&["propagation", "stream"]),
            dest_hash(legacy),
            "rfed.propagation.stream must not collide with rfed.{legacy}",
        );
    }
}

const SPLIT: &[&[&str]] = &[
    &["channel", "subscribe"],
    &["channel", "unsubscribe"],
    &["channel", "publish"],
    &["channel", "pull"],
    &["channel", "stream"],
    &["propagation", "stream"],
    &["notify", "register"],
    &["notify", "unregister"],
    &["distro", "register"],
    &["distro", "unregister"],
    &["distro", "list"],
];

#[test]
fn rfed_split_aspects_pairwise_distinct() {
    for i in 0..SPLIT.len() {
        for j in (i + 1)..SPLIT.len() {
            assert_ne!(
                dest_hash_multi(SPLIT[i]),
                dest_hash_multi(SPLIT[j]),
                "{:?} and {:?} must hash to distinct destinations",
                SPLIT[i],
                SPLIT[j],
            );
        }
    }
}

#[test]
fn rfed_split_aspects_do_not_collide_with_rns_path_request() {
    for aspects in SPLIT {
        assert_ne!(
            hex(&dest_hash_multi(aspects)),
            RNS_PATH_REQUEST_HASH_HEX,
            "rfed.{} must not collide with rnstransport.path.request",
            aspects.join("."),
        );
    }
}

fn encode_filter_list(filters: &[&[u8]]) -> Vec<u8> {
    let value = rmpv::Value::Array(filters.iter().map(|hash| rmpv::Value::Binary(hash.to_vec())).collect());
    encode(&value)
}

fn encode(value: &rmpv::Value) -> Vec<u8> {
    let mut buf = Vec::new();
    rmpv::encode::write_value(&mut buf, value).expect("encode");
    buf
}

fn decode(bytes: &[u8]) -> rmpv::Value {
    rmpv::decode::read_value(&mut std::io::Cursor::new(bytes)).expect("decode")
}

#[test]
fn channel_stream_filters_accept_legacy_single_hash() {
    let hash = vec![0x11; 16];
    let decoded = decode_channel_stream_filters(&hash).expect("decode legacy single hash");
    assert_eq!(decoded, vec![hash]);
}

#[test]
fn channel_stream_filters_accept_config_array_and_dedup() {
    let first = vec![0x11; 16];
    let second = vec![0x22; 16];
    let payload = encode_filter_list(&[&first, &second, &first]);
    let decoded = decode_channel_stream_filters(&payload).expect("decode config array");
    assert_eq!(decoded, vec![first, second]);
}

#[test]
fn channel_stream_filters_accept_empty_config_array() {
    let payload = encode_filter_list(&[]);
    let decoded = decode_channel_stream_filters(&payload).expect("decode empty config array");
    assert!(decoded.is_empty(), "empty config array must produce no live filters");
}

#[test]
fn channel_stream_filters_reject_non_16_byte_entries() {
    let bad = vec![0x33; 15];
    let payload = encode_filter_list(&[&bad]);
    let err = decode_channel_stream_filters(&payload).expect_err("reject short entry");
    assert!(err.contains("!= 16"), "unexpected error: {err}");
    assert_eq!(err, "channel stream config entry len 15 != 16");
}

#[test]
fn channel_stream_filters_reject_what_is_no_list_of_hashes() {
    let err = decode_channel_stream_filters(&[]).unwrap_err();
    assert_eq!(
        err,
        "channel stream config decode: I/O error while reading marker byte: failed to fill whole buffer",
    );
    let err = decode_channel_stream_filters(&encode(&rmpv::Value::Nil)).unwrap_err();
    assert_eq!(err, "channel stream config must be bin(16) or array of bin(16), got Nil");
    let mixed = rmpv::Value::Array(vec![rmpv::Value::Binary(vec![1; 16]), rmpv::Value::from(true), rmpv::Value::Nil]);
    let err = decode_channel_stream_filters(&encode(&mixed)).unwrap_err();
    assert_eq!(err, "channel stream config entries must be bin(16), got Boolean(true)");
}

fn assert_detached<T: Send + 'static>() {}

#[test]
fn fanout_plan_owns_its_data() {
    assert_detached::<rfed::fanout::FanoutPlan>();
}

fn decode_pull_response(buf: &[u8]) -> Option<(Vec<(Vec<u8>, Vec<u8>)>, bool)> {
    let val = decode(buf);
    let outer = val.as_array()?;
    if outer.len() != 2 {
        return None;
    }
    let pairs_arr = outer[0].as_array()?;
    let more_pending = outer[1].as_bool()?;
    let mut pairs = Vec::with_capacity(pairs_arr.len());
    for entry in pairs_arr {
        let inner = entry.as_array()?;
        if inner.len() != 2 {
            return None;
        }
        pairs.push((inner[0].as_slice()?.to_vec(), inner[1].as_slice()?.to_vec()));
    }
    Some((pairs, more_pending))
}

fn pull_response(pairs: &[(Vec<u8>, Vec<u8>)], more_pending: bool) -> Vec<u8> {
    let pending = pairs
        .iter()
        .map(|(c, b)| PendingBlob { channel_hash: c.clone(), blob: b.clone(), enqueued_at: 0 })
        .collect();
    encode_pull_response(pending, more_pending)
}

#[test]
fn pull_response_envelope_roundtrip_with_pairs() {
    let pairs = vec![(vec![0x11u8; 16], b"hello".to_vec()), (vec![0x22u8; 16], b"world".to_vec())];
    let buf = pull_response(&pairs, true);
    let (decoded, more) = decode_pull_response(&buf).expect("envelope must decode");
    assert!(more);
    assert_eq!(decoded, pairs);
}

#[test]
fn pull_response_envelope_roundtrip_empty_no_more() {
    let buf = pull_response(&[], false);
    let (decoded, more) = decode_pull_response(&buf).expect("envelope must decode");
    assert_eq!(decoded.len(), 0);
    assert!(!more, "empty queue MUST report more_pending=false");
}

#[test]
fn pull_response_envelope_is_a_two_element_array() {
    let buf = pull_response(&[], false);
    let val = decode(&buf);
    let outer = val.as_array().expect("outer must be array");
    assert_eq!(outer.len(), 2, "PULL envelope MUST be a 2-element array");
    assert!(outer[0].as_array().is_some(), "first element MUST be an array");
    assert!(outer[1].as_bool().is_some(), "second element MUST be a bool");
}

#[test]
fn pull_response_inner_pairs_are_two_element_arrays() {
    let pairs = vec![(vec![0xABu8; 16], b"x".to_vec())];
    let buf = pull_response(&pairs, false);
    let val = decode(&buf);
    let outer = val.as_array().unwrap();
    let pair = outer[0].as_array().unwrap()[0].as_array().unwrap();
    assert_eq!(pair.len(), 2, "each (channel_hash, blob) entry MUST be a 2-array");
    assert!(pair[0].as_slice().is_some(), "channel_hash MUST be msgpack bin");
    assert!(pair[1].as_slice().is_some(), "blob MUST be msgpack bin");
}

#[test]
fn subscribe_response_carries_stamp_cost_as_integer() {
    let buf = encode_subscribe_response(true, Some(16));
    let val = decode(&buf);
    let arr = val.as_array().expect("response MUST be array");
    assert_eq!(arr.len(), 2);
    assert_eq!(arr[0].as_bool(), Some(true));
    assert_eq!(arr[1].as_i64(), Some(16));
}

#[test]
fn subscribe_response_uses_nil_when_stamp_cost_disabled() {
    let buf = encode_subscribe_response(true, None);
    let val = decode(&buf);
    let arr = val.as_array().unwrap();
    assert_eq!(arr.len(), 2);
    assert!(arr[1].is_nil(), "disabled stamp_cost MUST encode as msgpack Nil");
    assert!(arr[1].as_i64().is_none(), "Nil MUST NOT decode as integer 0");
}

fn config() -> NodeConfig {
    NodeConfig {
        config_dir: "/tmp/rfed".to_string(),
        rns_config_dir: None,
        identity_file: "/tmp/rfed/identity".to_string(),
        display_name: "node".to_string(),
        announce_interval_secs: 600,
        announce_at_start: false,
        default_policy: TierPolicy::default(),
        vip_policy: TierPolicy::vip_default(),
        vip_subscribers: Vec::new(),
        peering_cost: None,
        storage_limit_bytes: 1 << 20,
        transfer_limit_bytes: None,
        sync_limit_bytes: None,
        static_peers: Vec::new(),
        from_static_only: false,
        trusted_backup_peers: Vec::new(),
        primary_node: None,
        secondary_nodes: Vec::new(),
        owner_offline: 90_000_000_000,
        lxmf_propagation_enabled: true,
        lxmf_propagation_autopeer: false,
        lxmf_propagation_peers: Vec::new(),
    }
}

fn node_with(config: NodeConfig) -> FedNode {
    FedNode::new(TEST_IDENTITY_HASH.to_vec(), config, Vec::new(), Vec::new(), Vec::new(), Vec::new(), Vec::new())
}

#[test]
fn subscribe_response_failure_uses_bool_false() {
    let mut cfg = config();
    cfg.default_policy.allow_subscription = false;
    let mut node = node_with(cfg);
    let signed = Signed { value: vec![1; 16], identity_hash: vec![2; 16], public_key: vec![3; 64] };
    assert_eq!(node.on_subscribe(Ok(signed), 1).as_slice(), &[0xc2u8]);
    assert_eq!(rmp_serde::to_vec(&false).unwrap().as_slice(), &[0xc2u8]);
}

#[test]
fn default_pull_page_size_matches_chat_history_page() {
    assert_eq!(DEFAULT_PULL_PAGE_SIZE, 25);
}

#[test]
fn stamp_expand_rounds_is_pinned_at_sixteen() {
    assert_eq!(STAMP_EXPAND_ROUNDS, 16);
}

#[test]
fn stamp_cost_zero_normalizes_to_none() {
    let from_config: Option<u32> = Some(0);
    assert!(effective_stamp_cost(from_config).is_none(), "stamp_cost=Some(0) MUST normalise to None (disabled)");
    let nonzero: Option<u32> = Some(16);
    assert_eq!(effective_stamp_cost(nonzero), Some(16));
    let absent: Option<u32> = None;
    assert!(effective_stamp_cost(absent).is_none());
}

#[test]
fn subscribe_response_stamp_cost_zero_encodes_as_nil_not_integer() {
    let mut cfg = config();
    cfg.default_policy.stamp_cost = Some(0);
    let mut node = node_with(cfg);
    let signed = Signed { value: vec![1; 16], identity_hash: vec![2; 16], public_key: vec![3; 64] };
    let val = decode(&node.on_subscribe(Ok(signed), 1));
    let arr = val.as_array().unwrap();
    assert_eq!(arr[0].as_bool(), Some(true));
    assert!(arr[1].is_nil(), "stamp_cost=0 in config MUST encode as msgpack Nil; got {:?}", arr[1]);
    assert!(arr[1].as_i64().is_none(), "stamp_cost=0 MUST NOT encode as integer 0 in subscribe response");
}

#[test]
fn a_pull_request_names_its_channel_with_or_without_encoding() {
    assert_eq!(decode_channel_pull_request(&[7; 16]).unwrap(), vec![7; 16]);
    assert_eq!(decode_channel_pull_request(&encode(&rmpv::Value::Binary(vec![8; 16]))).unwrap(), vec![8; 16]);
    assert_eq!(
        decode_channel_pull_request(&encode(&rmpv::Value::Binary(vec![8; 3]))).unwrap_err(),
        "channel pull request must carry bin(16) channel hash, got 3 bytes",
    );
    assert_eq!(
        decode_channel_pull_request(&[]).unwrap_err(),
        "channel pull request must carry bin(16) channel hash, got 0 bytes",
    );
}
