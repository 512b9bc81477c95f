use rfed::blob_store::BlobStore;
use rfed::clock::SECOND;
use rfed::config::{NodeConfig, TierPolicy};
use rfed::digest::destination_hash;
use rfed::distro::DistroTable;
use rfed::lxmf_propagation::exchange::{OfferStep, ResponseStep};
use rfed::lxmf_propagation::ingest::{
    goes_to_devices, ingest_distro_blob, live_advance, live_notify, live_start, message_destination, message_sender,
    BatchCount, DistroIngest, LiveDispatchOutcome, LiveStage,
};
use rfed::lxmf_propagation::node::{LxmfPropagationNode, PropagationEntry, Settings};
use rfed::lxmf_propagation::peer::{KeyStep, PropPeer};
use rfed::lxmf_propagation::requests::served;
use rfed::lxmf_propagation::store::{parse_stored_name, stored_name, MESSAGE_EXPIRY};
use rfed::lxmf_propagation::sync::{HoldNotice, SyncStep, MAX_UNREACHABLE, STARTUP_BACKLOG_HOLD};
use rfed::lxmf_propagation::wire::{
    announced_limits, batch_line, decode_propagation_batch, encode_error, encode_list, encode_offer, encode_offer_reply,
    encode_transfer, read_offer_response, read_propagation_announce, OfferResponse, Selection, ERROR_INVALID_DATA,
    ERROR_INVALID_KEY, ERROR_NO_ACCESS, ERROR_NO_IDENTITY,
};
use rfed::fields::{kilobytes, Number};
use rfed::notify::rns::LogLevel;
use rfed::notify::NotifyRegistry;
use rfed::stream_registry::StreamDispatchResult;
use rmpv::Value;
use sha2::Digest;

const T0: u64 = 1_700_000_000 * SECOND;

fn config() -> NodeConfig {
    NodeConfig {
        config_dir: "/tmp/rfed".to_string(),
        rns_config_dir: None,
        identity_file: "/tmp/rfed/identity".to_string(),
        display_name: "test".to_string(),
        announce_interval_secs: 600,
        announce_at_start: false,
        default_policy: TierPolicy::default(),
        vip_policy: TierPolicy::vip_default(),
        vip_subscribers: Vec::new(),
        peering_cost: None,
        storage_limit_bytes: 0,
        transfer_limit_bytes: None,
        sync_limit_bytes: None,
        static_peers: Vec::new(),
        from_static_only: false,
        trusted_backup_peers: Vec::new(),
        primary_node: None,
        secondary_nodes: Vec::new(),
        owner_offline: 90 * SECOND,
        lxmf_propagation_enabled: true,
        lxmf_propagation_autopeer: false,
        lxmf_propagation_peers: Vec::new(),
    }
}

fn node_of(config: &NodeConfig) -> LxmfPropagationNode {
    LxmfPropagationNode::new(Settings::from_config(config, vec![0xD0; 16], vec![0x1D; 16]), T0)
}

fn test_node() -> LxmfPropagationNode {
    node_of(&config())
}

fn entry(received: u64) -> PropagationEntry {
    PropagationEntry { destination_hash: vec![0; 16], filepath: String::new(), received, size: 100, stamp_value: 0 }
}

fn stored(dest: u8, file: &str, received: u64, size: usize) -> PropagationEntry {
    PropagationEntry { destination_hash: vec![dest; 16], filepath: file.to_string(), received, size, stamp_value: 1 }
}

fn id(n: u8) -> Vec<u8> {
    vec![n; 32]
}

fn encode(value: &Value) -> Vec<u8> {
    let mut out = Vec::new();
    rmpv::encode::write_value(&mut out, value).unwrap();
    out
}

fn batch(entries: Vec<Value>) -> Vec<u8> {
    encode(&Value::Array(vec![Value::F64(0.0), Value::Array(entries)]))
}

/// A peer with a key that is strong enough.
fn ready_peer(hash: u8) -> PropPeer {
    let mut p = PropPeer::new(vec![hash; 16]);
    p.alive = true;
    p.last_heard = T0;
    p.propagation_stamp_cost = Some(16);
    p.propagation_stamp_flexibility = Some(3);
    p.peering_cost = Some(18);
    p.peering_key = Some((vec![7; 32], 18));
    p
}

#[test]
fn backlog_is_held_for_an_hour_but_fresh_messages_sync_at_once() {
    let mut g = test_node();
    let old = vec![1u8; 32];
    let fresh = vec![2u8; 32];
    let t0 = g.started_at;
    g.entries.insert(old.clone(), entry(t0 - 100 * SECOND));
    g.entries.insert(fresh.clone(), entry(t0 + SECOND));
    g.fresh_since_start.push(fresh.clone());
    let mut peer = PropPeer::new(vec![9u8; 16]);
    peer.add_unhandled(old.clone());
    peer.add_unhandled(fresh.clone());
    assert!(g.backlog_held(t0));
    assert_eq!(g.sync_pool(&peer, t0), vec![fresh.clone()], "only the fresh message is offered during the hold");
    let mut backlog_only = PropPeer::new(vec![8u8; 16]);
    backlog_only.add_unhandled(old.clone());
    assert!(g.sync_pool(&backlog_only, t0).is_empty(), "a peer lacking only backlog is not synced yet");
    g.started_at = t0 - STARTUP_BACKLOG_HOLD - SECOND;
    assert!(!g.backlog_held(t0));
    let pool = g.sync_pool(&peer, t0);
    assert!(pool.contains(&old) && pool.contains(&fresh), "after the hold everything the peer lacks is offered");
}

#[test]
fn outbound_sync_is_not_gated_by_the_backlog_hold() {
    let mut g = test_node();
    assert!(g.backlog_held(T0));
    assert!(g.outbound_sync_allowed(T0), "the budget alone gates the tick; fresh messages need no wait");
}

#[test]
fn sync_is_held_once_the_minute_budget_is_spent_and_resets_next_minute() {
    let mut g = test_node();
    g.outbound_sync_window_count = g.outbound_sync_msgs_per_min;
    assert!(!g.outbound_sync_allowed(T0), "budget spent holds sync");
    assert!(g.outbound_sync_hold_logged, "the hold is logged once");
    assert!(!g.outbound_sync_allowed(T0), "still held within the window");
    g.outbound_sync_window_start = T0 - 61 * SECOND;
    assert!(g.outbound_sync_allowed(T0), "a new minute resets the budget");
    assert_eq!(g.outbound_sync_window_count, 0);
    assert!(!g.outbound_sync_hold_logged, "the release clears the hold flag");
}

#[test]
fn the_hold_is_told_once_and_its_end_once() {
    let mut g = test_node();
    g.fresh_since_start.push(id(1));
    assert_eq!(g.note_backlog_hold(T0), HoldNotice::Held);
    assert_eq!(g.note_backlog_hold(T0), HoldNotice::Nothing);
    assert_eq!(g.note_backlog_hold(T0 + STARTUP_BACKLOG_HOLD), HoldNotice::Released);
    assert!(g.fresh_since_start.is_empty());
    assert_eq!(g.note_backlog_hold(T0 + STARTUP_BACKLOG_HOLD), HoldNotice::Nothing);
}

#[test]
fn bin_entries_are_messages() {
    let m = decode_propagation_batch(&batch(vec![Value::Binary(vec![1; 40]), Value::Binary(vec![2; 40])])).unwrap();
    assert_eq!(m.len(), 2);
}

#[test]
fn str_entries_are_dropped_not_messages() {
    let m = decode_propagation_batch(&batch(vec![Value::String("x".repeat(40).into())])).unwrap();
    assert!(m.is_empty(), "a str entry is not a message");
}

#[test]
fn no_batch_vanishes_in_silence() {
    let bin = || Value::Binary(vec![1; 40]);
    let line = |values: Vec<Value>| batch_line(&batch(values));
    assert_eq!(line(vec![bin(), bin()]), None);
    assert_eq!(line(vec![]), None);
    let dropped = |total: usize, n: usize, kind: &str| {
        let text = format!(
            "[lxmf.prop] batch of {total} entries: {n} dropped for not being msgpack bin (sender packs bytes as {kind})"
        );
        Some((LogLevel::Warning, text))
    };
    assert_eq!(line(vec![bin(), Value::from("x"), Value::Nil]), dropped(3, 2, "str"));
    assert_eq!(line(vec![Value::Nil, bin()]), dropped(2, 1, "nil"));
    assert_eq!(line(vec![Value::Array(vec![])]), dropped(1, 1, "array"));
    assert_eq!(line(vec![Value::from(7)]), dropped(1, 1, "another type"));
    let malformed = Some((LogLevel::Warning, "[lxmf.prop] malformed packet".to_string()));
    assert_eq!(batch_line(&[]), malformed);
    assert_eq!(batch_line(&encode(&Value::from(7))), malformed);
    let missing = Some((LogLevel::Debug, "[lxmf.prop] packet missing message array".to_string()));
    assert_eq!(batch_line(&encode(&Value::Array(vec![Value::from(7)]))), missing);
    assert_eq!(batch_line(&encode(&Value::Array(vec![Value::from(7), Value::Nil]))), missing);
}

#[test]
fn a_non_batch_is_none() {
    assert!(decode_propagation_batch(&encode(&Value::Integer(7.into()))).is_none());
}

#[test]
fn a_transfer_is_a_batch() {
    let messages = vec![vec![1; 40], vec![], vec![2; 3]];
    assert_eq!(decode_propagation_batch(&encode_transfer(messages.clone())), Some(messages));
}

#[test]
fn a_peer_does_not_requeue_what_it_already_handled() {
    let mut peer = PropPeer::new(vec![9; 16]);
    peer.add_unhandled(id(1));
    peer.mark_handled(&id(1));
    peer.add_unhandled(id(1));
    assert!(peer.unhandled_ids.is_empty());
    assert!(peer.handled_ids.contains(&id(1)));
}

#[test]
fn queueing_stays_cheap_at_production_scale() {
    let mut peers: Vec<PropPeer> = (0..20).map(|i| PropPeer::new(vec![i as u8; 16])).collect();
    let wide = |n: u32| {
        let mut v = vec![0u8; 32];
        v[..4].copy_from_slice(&n.to_be_bytes());
        v
    };
    for p in peers.iter_mut() {
        for n in 0..150_000u32 {
            p.add_unhandled(wide(n));
        }
    }
    let started = std::time::Instant::now();
    for n in 0..200u32 {
        for p in peers.iter_mut() {
            p.add_unhandled(wide(150_000 + n));
        }
    }
    let per_message_ms = started.elapsed().as_secs_f64() * 1000.0 / 200.0;
    assert!(per_message_ms < 2.0, "queueing for 20 peers took {per_message_ms:.2} ms per message");
}

#[test]
fn send_offer_identifies_link_before_request() {
    let mut g = test_node();
    g.peers.push(ready_peer(9));
    let ids = vec![id(1)];
    assert!(matches!(g.offer_link_ready(&[9; 16], &[5; 16], &ids, T0), OfferStep::Identify));
    g.identify_done(&[9; 16], &[5; 16], true);
    match g.offer_link_ready(&[9; 16], &[5; 16], &ids, T0) {
        OfferStep::Send(bytes) => assert_eq!(bytes, encode_offer(vec![7; 32], ids)),
        _ => panic!("the offer goes out once the link is identified"),
    }
}

#[test]
fn send_offer_defers_request_until_link_identified() {
    let mut g = test_node();
    g.peers.push(ready_peer(9));
    let ids = vec![id(1)];
    assert!(matches!(g.offer_link_ready(&[9; 16], &[5; 16], &ids, T0), OfferStep::Identify));
    g.identify_done(&[9; 16], &[5; 16], true);
    assert_eq!(g.peers[0].state, PropPeer::IDLE);
    assert!(
        matches!(g.offer_link_ready(&[9; 16], &[6; 16], &ids, T0), OfferStep::Identify),
        "another link is identified anew",
    );
    g.identify_done(&[9; 16], &[6; 16], false);
    assert_eq!(g.peers[0].identified_link_id, None);
    g.peers[0].peering_key = None;
    g.identify_done(&[9; 16], &[6; 16], true);
    assert!(matches!(g.offer_link_ready(&[9; 16], &[6; 16], &ids, T0), OfferStep::NoKey));
    assert!(matches!(g.offer_link_ready(&[8; 16], &[6; 16], &ids, T0), OfferStep::NoPeer));
}

#[test]
fn every_offered_message_is_settled_by_the_answer() {
    let ids = vec![id(1), id(2), id(3)];
    let fresh = |ids: &Vec<Vec<u8>>| {
        let mut g = test_node();
        let mut p = ready_peer(9);
        for i in ids {
            p.add_unhandled(i.clone());
        }
        p.last_offer = ids.clone();
        g.peers.push(p);
        g
    };
    let mut g = fresh(&ids);
    match g.handle_offer_response(&[9; 16], OfferResponse::Wants(vec![id(2)])) {
        ResponseStep::Send(list) => assert_eq!(list, vec![id(2)]),
        ResponseStep::Done => panic!("a message is asked for"),
    }
    assert_eq!(g.peers[0].unhandled_ids.to_vec(), vec![id(2)]);
    assert_eq!(g.peers[0].handled_ids.to_vec(), vec![id(1), id(3)]);
    let mut g = fresh(&ids);
    assert!(matches!(g.handle_offer_response(&[9; 16], OfferResponse::HasAll), ResponseStep::Done));
    assert!(g.peers[0].unhandled_ids.is_empty());
    let mut g = fresh(&ids);
    match g.handle_offer_response(&[9; 16], OfferResponse::WantsAll) {
        ResponseStep::Send(list) => assert_eq!(list, ids),
        ResponseStep::Done => panic!("all messages are asked for"),
    }
    let mut g = fresh(&ids);
    g.handle_offer_response(&[9; 16], OfferResponse::InvalidKey);
    assert_eq!(g.peers[0].peering_key, None);
    g.handle_offer_response(&[9; 16], OfferResponse::NoIdentity);
    assert_eq!(g.peers[0].identified_link_id, None);
    g.handle_offer_response(&[9; 16], OfferResponse::Unexpected);
    assert_eq!(g.peers.len(), 1);
    g.handle_offer_response(&[9; 16], OfferResponse::AccessDenied);
    assert!(g.peers.is_empty());
}

#[test]
fn messages_that_were_sent_count_toward_the_budget() {
    let mut g = test_node();
    let mut p = ready_peer(9);
    p.add_unhandled(id(1));
    p.link = Some(vec![5; 16]);
    g.peers.push(p);
    g.entries.insert(id(1), stored(1, "one", T0, 50));
    assert_eq!(g.transfer_files(&vec![id(1), id(2)]), vec!["one".to_string()]);
    let data = g.begin_transfer(&[9; 16], &vec![id(1)], vec![vec![3; 20]]).expect("the peer has a link");
    assert_eq!(decode_propagation_batch(&data), Some(vec![vec![3; 20]]));
    assert_eq!(g.peers[0].handled_ids.to_vec(), vec![id(1)]);
    g.transfer_sent(1);
    assert_eq!(g.outbound_sync_window_count, 1);
    assert!(g.begin_transfer(&[9; 16], &vec![id(1)], vec![]).is_none());
    g.end_exchange(&[9; 16]);
    assert_eq!(g.peers[0].link, None);
    assert!(g.begin_transfer(&[9; 16], &vec![id(1)], vec![vec![3; 20]]).is_none());
    g.offer_sent(&[9; 16], true);
    assert_eq!(g.peers[0].state, PropPeer::REQUEST_SENT);
    g.offer_failed(&[9; 16]);
    assert_eq!(g.peers[0].state, PropPeer::IDLE);
    assert_eq!(g.get_stats(), (0, 0, 1, 1));
}

#[test]
fn answers_to_an_offer_are_understood() {
    let read = |bytes: Vec<u8>| read_offer_response(Some(bytes.as_slice()));
    assert!(matches!(read(encode_error(ERROR_NO_IDENTITY)), OfferResponse::NoIdentity));
    assert!(matches!(read(encode_error(ERROR_NO_ACCESS)), OfferResponse::AccessDenied));
    assert!(matches!(read(encode_error(ERROR_INVALID_KEY)), OfferResponse::InvalidKey));
    assert!(matches!(read(encode_offer_reply(vec![], 3)), OfferResponse::HasAll));
    assert!(matches!(read(encode_offer_reply(vec![id(1), id(2)], 2)), OfferResponse::WantsAll));
    match read(encode_offer_reply(vec![id(2)], 2)) {
        OfferResponse::Wants(list) => assert_eq!(list, vec![id(2)]),
        _ => panic!("one of two is wanted"),
    }
    assert!(matches!(read(encode(&Value::from("no"))), OfferResponse::Unexpected));
    assert!(matches!(read_offer_response(None), OfferResponse::Unexpected));
}

#[test]
fn an_offer_is_answered_with_what_lacks() {
    let mut cfg = config();
    cfg.lxmf_propagation_autopeer = true;
    let mut g = node_of(&cfg);
    g.entries.insert(id(1), entry(T0));
    let data = encode_offer(vec![7; 32], vec![id(1), id(2)]);
    let request = match g.open_offer(&data, Some(&[9; 16])) {
        Ok(r) => r,
        Err(_) => panic!("the offer is fine"),
    };
    assert_eq!(request.peering_key, vec![7; 32]);
    assert_eq!(request.material, [vec![0x1D; 16], vec![9; 16]].concat());
    assert_eq!(g.lacking(&request.ids), vec![id(2)]);
    match read_offer_response(Some(&g.answer_offer(&request, true))) {
        OfferResponse::Wants(list) => assert_eq!(list, vec![id(2)]),
        _ => panic!("one of two is lacking"),
    }
    assert_eq!(g.answer_offer(&request, false), encode_error(ERROR_INVALID_KEY));
    assert_eq!(g.open_offer(&data, None).err(), Some(encode_error(ERROR_NO_IDENTITY)));
    assert_eq!(g.open_offer(b"\xc0", Some(&[9; 16])).err(), Some(encode_error(ERROR_INVALID_DATA)));
    let closed = test_node();
    assert_eq!(closed.open_offer(&data, Some(&[9; 16])).err(), Some(encode_error(ERROR_NO_ACCESS)));
}

#[test]
fn a_client_lists_gets_and_drops_its_messages() {
    let mut g = test_node();
    let dest = destination_hash(&[9; 16], "lxmf", &["delivery"]);
    let mut mine = stored(0, "mine", T0, 60);
    mine.destination_hash = dest.clone();
    let mut small = stored(0, "small", T0, 10);
    small.destination_hash = dest.clone();
    g.entries.insert(id(1), mine);
    g.entries.insert(id(2), small);
    g.entries.insert(id(3), stored(4, "other", T0, 5));
    let list = encode(&Value::Array(vec![Value::Nil, Value::Nil]));
    let (request, asked) = match g.open_get(&list, Some(&[9; 16])) {
        Ok(q) => q,
        Err(_) => panic!("the request is fine"),
    };
    assert_eq!(asked, dest);
    assert!(matches!(request.wants, Selection::Nothing) && matches!(request.haves, Selection::Nothing));
    assert_eq!(g.listing(&dest), vec![id(2), id(1)], "the smallest first");
    assert_eq!(g.answer_listing(&dest), encode_list(vec![id(2), id(1)]));
    let get = encode(&Value::Array(vec![
        Value::Array(vec![Value::Binary(id(1)), Value::Binary(id(3))]),
        Value::Array(vec![Value::Binary(id(2))]),
        Value::from(100),
    ]));
    let (request, _) = match g.open_get(&get, Some(&[9; 16])) {
        Ok(q) => q,
        Err(_) => panic!("the request is fine"),
    };
    assert_eq!(request.limit, Some(Number::Whole(100)));
    match (request.wants, request.haves) {
        (Selection::Ids(wants), Selection::Ids(haves)) => {
            assert_eq!(g.drop_haves(&dest, &haves), vec!["small".to_string()]);
            assert_eq!(g.wanted_files(&dest, &wants), vec!["mine".to_string()]);
        },
        _ => panic!("both are lists"),
    }
    assert_eq!(g.listing(&dest), vec![id(1)]);
    assert_eq!(g.open_get(&get, None).err(), Some(encode_error(ERROR_NO_IDENTITY)));
    assert_eq!(g.open_get(b"\xc0", Some(&[9; 16])).err(), Some(encode_error(ERROR_INVALID_DATA)));
}

#[test]
fn an_answer_stays_within_the_limit_and_holds_no_stamps() {
    let file = |n: u8, len: usize| [vec![n; len], vec![0xAA; 32]].concat();
    let all = vec![Some(file(1, 40)), None, Some(file(2, 10))];
    assert_eq!(served(all.clone(), None), vec![vec![1; 40], vec![2; 10]]);
    assert_eq!(served(all.clone(), Some(24 + 72 + 16)), vec![vec![1; 40]]);
    assert_eq!(served(all.clone(), Some(24 + 42 + 16)), vec![vec![2; 10]]);
    let mut g = test_node();
    assert_eq!(g.serve(all, None), encode_list(vec![vec![1; 40], vec![2; 10]]));
    assert_eq!(g.messages_served, 2);
}

#[test]
fn a_message_is_stored_once_and_queued_for_other_peers() {
    let mut g = test_node();
    g.peers.push(ready_peer(8));
    g.peers.push(ready_peer(9));
    let data: Vec<u8> = (0..50).collect();
    let m = g.prepare_message(&data, Some(&[0xAA; 32])).expect("it is new");
    let mid = sha2::Sha256::digest(&data).to_vec();
    assert_eq!(m.transient_id, mid);
    assert_eq!(m.destination_hash, data[..16].to_vec());
    assert_eq!(m.file_data, [data.clone(), vec![0xAA; 32]].concat());
    assert!(g.record_message(m, "f".to_string(), T0, 5, Some(&[8; 16])));
    assert!(g.peers[0].unhandled_ids.is_empty(), "not to the peer that it came from");
    assert_eq!(g.peers[1].unhandled_ids.to_vec(), vec![mid.clone()]);
    assert_eq!(g.fresh_since_start, vec![mid]);
    assert_eq!(g.messages_received, 1);
    assert!(g.prepare_message(&data, None).is_none());
    assert!(g.prepare_message(&data[..15], None).is_none());
    assert_eq!(g.stored_bytes(), 82);
}

#[test]
fn old_messages_go_and_the_oldest_go_for_room() {
    let mut cfg = config();
    cfg.storage_limit_bytes = 250;
    let mut g = node_of(&cfg);
    let mut p = ready_peer(9);
    for n in 1..=4 {
        p.add_unhandled(id(n));
    }
    g.peers.push(p);
    g.entries.insert(id(1), stored(1, "a", T0 - MESSAGE_EXPIRY - 1, 100));
    g.entries.insert(id(2), stored(1, "b", T0 - 10, 100));
    g.entries.insert(id(3), stored(1, "c", T0 - 30, 100));
    g.entries.insert(id(4), stored(1, "d", T0 - 20, 100));
    assert_eq!(g.evict_expired(T0), vec!["a".to_string()]);
    assert_eq!(g.peers[0].unhandled_ids.to_vec(), vec![id(2), id(3), id(4)]);
    assert_eq!(g.enforce_storage_limit(), vec!["c".to_string()]);
    assert_eq!(g.peers[0].unhandled_ids.to_vec(), vec![id(2), id(4)]);
    assert_eq!(g.stored_bytes(), 200);
    assert!(g.enforce_storage_limit().is_empty());
}

#[test]
fn a_stored_name_is_read_back() {
    let name = stored_name(&id(0xAB), "1700000000.5", 14);
    assert_eq!(name, format!("{}_1700000000.5_14", "ab".repeat(32)));
    let n = parse_stored_name(&name).expect("a name of a message");
    assert_eq!(n.transient_id, id(0xAB));
    assert_eq!(n.received, "1700000000.5");
    assert_eq!(n.stamp_value, 14);
    assert!(parse_stored_name("ab_1_2").is_none());
    assert!(parse_stored_name(&format!("{}_1", "ab".repeat(32))).is_none());
    assert!(parse_stored_name(&format!("{}_1_x", "ab".repeat(32))).is_none());
    let mut g = test_node();
    assert!(g.index_message(n, "f".to_string(), T0, 40, &[3; 40]));
    assert_eq!(g.entries.get(&id(0xAB)).map(|e| e.destination_hash.clone()), Some(vec![3; 16]));
    let short = parse_stored_name(&name).unwrap();
    assert!(!g.index_message(short, "f".to_string(), T0, 4, &[3; 4]));
}

#[test]
fn an_announce_says_what_the_node_takes() {
    let mut cfg = config();
    cfg.transfer_limit_bytes = Some(3 << 20);
    cfg.sync_limit_bytes = Some(5 << 20);
    let g = node_of(&cfg);
    let a = read_propagation_announce(&g.build_app_data(T0)).expect("an announce");
    assert_eq!(a.timebase, 1_700_000_000);
    assert!(a.enabled);
    assert_eq!((a.stamp_cost, a.stamp_flexibility, a.peering_cost), (16, 3, 18));
    assert_eq!(a.transfer_limit, Some(Number::Whole(3)));
    assert_eq!(a.sync_limit, Some(Number::Whole(5)));
    assert_eq!(a.metadata, encode(&Value::Map(vec![(Value::from(1), Value::Binary(b"test".to_vec()))])));
    assert_eq!(announced_limits(Some(Number::Whole(256)), Some(Number::Whole(0))), Some((256_000, 256_000)));
    assert_eq!(announced_limits(None, Some(Number::Whole(10))), Some((0, 10_000)));
    assert_eq!(announced_limits(Some(Number::Float64(0)), None), None);
    assert_eq!(kilobytes(Number::Whole(7)), Some(7_000));
    assert!(read_propagation_announce(&encode(&Value::Array(vec![Value::Nil; 6]))).is_none());
}

#[test]
fn peers_are_made_from_announces_and_by_configuration() {
    let mut cfg = config();
    cfg.lxmf_propagation_peers = vec![vec![5; 16]];
    let mut g = node_of(&cfg);
    g.activate_static_peers();
    assert_eq!(g.peers.len(), 1);
    let announce = || read_propagation_announce(&test_node().build_app_data(T0)).unwrap();
    g.handle_propagation_announce(&[6; 16], announce(), (1, 2), false, T0);
    assert_eq!(g.peers.len(), 1, "others are not peered with unless the node is told to");
    g.handle_propagation_announce(&[5; 16], announce(), (1, 2), false, T0);
    assert!(g.peers[0].alive);
    assert_eq!(g.peers[0].propagation_transfer_limit, Some(1));
    assert_eq!(g.peers[0].peering_cost, Some(18));
    g.unpeer(&[5; 16]);
    assert!(g.peers.is_empty());
}

#[test]
fn a_key_is_found_once_and_kept_where_it_is_strong_enough() {
    let mut g = test_node();
    let mut p = ready_peer(9);
    p.peering_key = None;
    g.peers.push(p);
    let job = g.begin_key(&[9; 16], Some(&[3; 16])).expect("a key is lacking");
    assert_eq!(job.cost, 18);
    assert_eq!(job.material, [vec![3; 16], vec![0x1D; 16]].concat());
    assert!(g.begin_key(&[9; 16], Some(&[3; 16])).is_none(), "one search at a time");
    assert!(!g.finish_key(&[9; 16], 18, Some(vec![1; 32]), 17));
    assert!(g.begin_key(&[9; 16], None).is_none());
    assert!(g.begin_key(&[9; 16], Some(&[3; 16])).is_some());
    assert!(g.finish_key(&[9; 16], 18, Some(vec![1; 32]), 19));
    assert!(g.peers[0].sync_ready() && g.peers[0].peering_key_ready());
    assert!(matches!(g.peers[0].key_step(None, None), KeyStep::Ready));
    let mut q = PropPeer::new(vec![1; 16]);
    assert!(matches!(q.key_step(Some(&[1]), Some(&[2])), KeyStep::Unknown));
    q.peering_cost = Some(4);
    match q.key_step(Some(&[1]), Some(&[2])) {
        KeyStep::Generate { cost, material } => assert_eq!((cost, material), (4, vec![1, 2])),
        _ => panic!("a key is lacking"),
    }
    assert!(q.accept_key(4, Some(vec![8]), 4));
}

#[test]
fn a_sync_begins_when_it_is_due() {
    let mut g = test_node();
    let mut p = ready_peer(9);
    p.add_unhandled(id(1));
    g.peers.push(p);
    g.entries.insert(id(1), stored(1, "a", T0, 100));
    let later = T0 + STARTUP_BACKLOG_HOLD;
    match g.tick_sync(later) {
        SyncStep::Begin(hash) => assert_eq!(hash, vec![9; 16]),
        _ => panic!("the peer lacks a message"),
    }
    assert!(matches!(g.tick_sync(later + SECOND), SyncStep::Wait));
    g.outbound_sync_window_count = g.outbound_sync_msgs_per_min;
    g.outbound_sync_window_start = later;
    assert!(matches!(g.tick_sync(later + 6 * SECOND), SyncStep::Held));
    g.outbound_sync_window_count = 0;
    g.peers[0].peering_key = None;
    match g.tick_sync(later + 12 * SECOND) {
        SyncStep::FindKeys(list) => assert_eq!(list, vec![vec![9; 16]]),
        _ => panic!("a key is lacking"),
    }
    match g.tick_sync(T0 + MAX_UNREACHABLE + 100 * SECOND) {
        SyncStep::FindKeys(list) => assert!(list.is_empty()),
        _ => panic!("nobody is left"),
    }
    assert!(g.peers.is_empty());
}

#[test]
fn an_offer_is_built_lightest_first_within_the_limits() {
    let mut g = test_node();
    g.started_at = T0 - STARTUP_BACKLOG_HOLD;
    let mut p = ready_peer(9);
    p.propagation_transfer_limit = Some(500);
    p.propagation_sync_limit = Some(24 + 116 + 216 + 1);
    for n in 1..=4 {
        p.add_unhandled(id(n));
    }
    g.peers.push(p);
    g.entries.insert(id(1), stored(1, "a", T0, 200));
    g.entries.insert(id(2), stored(1, "b", T0, 100));
    g.entries.insert(id(3), stored(1, "c", T0, 485));
    g.entries.insert(id(4), stored(1, "d", T0, 300));
    assert_eq!(g.build_offer(&[9; 16], T0), Some(vec![id(2), id(1)]));
    assert_eq!(g.peers[0].handled_ids.to_vec(), vec![id(3)], "what the peer does not take is not offered again");
    assert_eq!(g.initiate_sync(&[9; 16], T0 + 5), Some(vec![id(2), id(1)]));
    assert_eq!(g.peers[0].last_sync_attempt, T0 + 5);
    assert_eq!(g.build_offer(&[8; 16], T0), None);
}

#[test]
fn a_peer_is_saved_and_restored() {
    let mut g = test_node();
    g.entries.insert(id(1), entry(T0));
    let mut p = ready_peer(9);
    p.mark_handled(&id(1));
    p.add_unhandled(id(2));
    let state = p.to_state();
    assert_eq!(state.handled_ids, vec![id(1)]);
    g.restore_peer(state);
    assert_eq!(g.peers[0].handled_ids.to_vec(), vec![id(1)]);
    assert!(g.peers[0].unhandled_ids.is_empty(), "a message that is gone is not kept");
    assert_eq!(g.peers[0].peering_key, Some((vec![7; 32], 18)));
    assert_eq!(g.position(&[9; 16]), Some(0));
    assert_eq!(g.position(&[8; 16]), None);
}

#[test]
fn a_message_for_a_group_is_passed_on_once() {
    let mut table = DistroTable::load(Vec::new());
    table.register(vec![1; 16], vec![2; 16], vec![3; 64], 1);
    let message = vec![1; 40];
    assert!(goes_to_devices(Some(&table), &message));
    assert!(!goes_to_devices(None, &message));
    assert!(!goes_to_devices(Some(&table), &[2; 40]));
    let mut store = BlobStore::open(100);
    let hash = sha2::Sha256::digest(&message)[..16].to_vec();
    match ingest_distro_blob(&mut store, &message, T0) {
        DistroIngest::Store { message_id, evicted } => {
            assert_eq!(message_id, hash);
            assert!(evicted.is_empty());
            store.record(message_id, vec![1; 16], message.len(), T0);
        },
        _ => panic!("it is new and fits"),
    }
    assert!(matches!(ingest_distro_blob(&mut store, &message, T0), DistroIngest::AlreadyHeld));
    match ingest_distro_blob(&mut store, &[1; 101], T0) {
        DistroIngest::NoRoom { error, evicted } => {
            assert_eq!(error, "Storage limit reached (0/100 bytes)");
            assert_eq!(evicted.len(), 1);
        },
        _ => panic!("it is too large"),
    }
}

#[test]
fn a_live_push_wakes_nobody() {
    let none = StreamDispatchResult { matched: 0, sent: 0 };
    let sent = StreamDispatchResult { matched: 1, sent: 1 };
    assert_eq!(live_start(&[0; 15]), LiveStage::Done(LiveDispatchOutcome::Nobody));
    assert_eq!(live_start(&[0; 16]), LiveStage::Link);
    assert_eq!(live_advance(LiveStage::Link, sent), LiveStage::Done(LiveDispatchOutcome::Streamed));
    assert_eq!(live_advance(LiveStage::Link, none), LiveStage::Stream);
    assert_eq!(live_advance(LiveStage::Stream, sent), LiveStage::Done(LiveDispatchOutcome::Streamed));
    assert_eq!(live_advance(LiveStage::Stream, none), LiveStage::Notify);
    let mut registry = NotifyRegistry::load(Vec::new());
    registry.register(vec![1; 16], "aa".repeat(16), 1);
    let (outcome, list) = live_notify(&registry, &[1; 20]);
    assert_eq!((outcome, list.len()), (LiveDispatchOutcome::Notified, 1));
    let (outcome, list) = live_notify(&registry, &[2; 20]);
    assert_eq!((outcome, list.len()), (LiveDispatchOutcome::Nobody, 0));
    let mut count = BatchCount::new();
    count.note(true, LiveDispatchOutcome::Streamed);
    count.note(false, LiveDispatchOutcome::Notified);
    count.note(true, LiveDispatchOutcome::Nobody);
    assert_eq!((count.stored, count.streamed, count.notified), (2, 1, 1));
}

#[test]
fn the_parts_of_a_message_are_found() {
    let data: Vec<u8> = (0..40).collect();
    assert_eq!(message_destination(&data), data[..16].to_vec());
    assert_eq!(message_sender(&data), Some(data[16..32].to_vec()));
    assert_eq!(message_sender(&data[..31]), None);
    assert_eq!(Settings::from_config(&config(), vec![], vec![]).min_stamp_value(), 13);
}
