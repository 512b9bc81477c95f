use rfed::announce::{decode_node_announce, encode_node_announce, PROTOCOL_VERSION};
use rfed::destinations::fed_node::Service;
use rfed::digest::{destination_hash, join_name, truncated_hash};
use rfed::msgpack::{read_value, rewritten_item, write_value, Decoded, Item};
use rfed::options::{
    arg_value, arg_values, config_dir, default_policy, has_flag, merge_config, parse_hashes, settings_in_range,
    vip_policy, FileSettings, PolicySettings,
};
use rfed::order::sorted_positions;
use rfed::status::{format_bytes, write_status, InterfaceStatus, NodeStatus};
use rfed::text::{decimal, decode_hex, hex, parse_u32, parse_u64, pieces, trimmed};
use sha2::Digest;

#[test]
fn hexadecimal_text_and_bytes_go_both_ways() {
    assert_eq!(hex(&[0x00, 0xA5, 0xFF]), "00a5ff");
    assert_eq!(decode_hex("00A5ff"), Some(vec![0x00, 0xA5, 0xFF]));
    assert_eq!(decode_hex(""), Some(vec![]));
    assert_eq!(decode_hex("abc"), None);
    assert_eq!(decode_hex("zz"), None);
}

#[test]
fn numbers_are_read_and_written() {
    assert_eq!(decimal(0), "0");
    assert_eq!(decimal(u64::MAX), "18446744073709551615");
    assert_eq!(parse_u32("4294967295"), Some(u32::MAX));
    assert_eq!(parse_u32("4294967296"), None);
    assert_eq!(parse_u32("+7"), Some(7));
    assert_eq!(parse_u32(""), None);
    assert_eq!(parse_u32("+"), None);
    assert_eq!(parse_u32("-1"), None);
    assert_eq!(parse_u64("18446744073709551615"), Some(u64::MAX));
    assert_eq!(parse_u64("18446744073709551616"), None);
}

#[test]
fn texts_are_cut_and_trimmed() {
    assert_eq!(pieces("a_b__c", '_'), vec!["a", "b", "", "c"]);
    assert_eq!(pieces("", '_'), vec![""]);
    assert_eq!(trimmed(" \t a b\r\n"), "a b");
    assert_eq!(trimmed("  "), "");
}

#[test]
fn names_are_hashed_as_destinations() {
    assert_eq!(truncated_hash(b"abc"), sha2::Sha256::digest(b"abc")[..16].to_vec());
    assert_eq!(join_name("rfed", &["channel", "pull"]), "rfed.channel.pull");
    assert_eq!(join_name("rfed", &[]), "rfed");
    let name = sha2::Sha256::digest(b"rfed.node")[..10].to_vec();
    let whole = [name, vec![7; 16]].concat();
    assert_eq!(destination_hash(&[7; 16], "rfed", &["node"]), sha2::Sha256::digest(&whole)[..16].to_vec());
}

#[test]
fn equal_keys_stay_in_their_order() {
    assert_eq!(sorted_positions(&vec![5, 1, 5, 0, 1]), vec![3, 1, 4, 0, 2]);
    assert!(sorted_positions(&vec![]).is_empty());
}

#[test]
fn an_announce_is_read_back() {
    let bytes = encode_node_announce("Knoten", Some(16));
    let a = decode_node_announce(&bytes).expect("an announce");
    assert_eq!((a.display_name.as_str(), a.stamp_cost, a.protocol_version), ("Knoten", Some(16), PROTOCOL_VERSION));
    let a = decode_node_announce(&encode_node_announce("x", None)).expect("an announce");
    assert_eq!(a.stamp_cost, None);
    assert!(decode_node_announce(b"\xc0").is_none());
    assert!(decode_node_announce(b"").is_none());
}

fn encode(value: &rmpv::Value) -> Vec<u8> {
    let mut out = Vec::new();
    rmpv::encode::write_value(&mut out, value).unwrap();
    out
}

#[test]
fn values_are_read_and_written() {
    let item = Item::Array(vec![
        Item::Nil,
        Item::Boolean(true),
        Item::UInt(300),
        Item::Str("a".to_string()),
        Item::Binary(vec![1]),
        Item::Table(vec![(Item::UInt(1), Item::Nil)]),
    ]);
    let bytes = write_value(item);
    assert_eq!(bytes, vec![0x96, 0xc0, 0xc3, 0xcd, 0x01, 0x2c, 0xa1, b'a', 0xc4, 0x01, 0x01, 0x81, 0x01, 0xc0]);
    match read_value(&bytes) {
        Some(Decoded::Array(items)) => {
            assert!(matches!(items[0], Decoded::Nil));
            assert!(matches!(items[1], Decoded::Boolean(true)));
            assert!(matches!(items[2], Decoded::UInt(300)));
            assert!(matches!(&items[3], Decoded::Str(s) if s == "a"));
            assert!(matches!(&items[4], Decoded::Binary(b) if *b == vec![1]));
            assert!(matches!(&items[5], Decoded::Table(t) if t.len() == 1));
        },
        _ => panic!("an array"),
    }
    assert!(matches!(read_value(&encode(&rmpv::Value::from(-5))), Some(Decoded::NegInt(-5))));
    assert!(matches!(read_value(&encode(&rmpv::Value::F32(1.5))), Some(Decoded::F32(b)) if b == 1.5f32.to_bits()));
    assert!(matches!(read_value(&encode(&rmpv::Value::F64(2.5))), Some(Decoded::F64(b)) if b == 2.5f64.to_bits()));
    assert!(matches!(read_value(&[0xa1, 0xFF]), Some(Decoded::RawStr(b)) if b == vec![0xFF]));
    assert!(matches!(read_value(&[0xd4, 0x05, 0x09]), Some(Decoded::Ext(5, b)) if b == vec![9]));
    assert!(read_value(&[0xc1, 0x00][..0]).is_none());
    assert_eq!(rewritten_item(&bytes, 2), Some(vec![0xcd, 0x01, 0x2c]));
    assert_eq!(rewritten_item(&bytes, 6), None);
    assert_eq!(rewritten_item(b"\xc0", 0), None);
}

#[test]
fn sizes_are_written_for_the_eye() {
    assert_eq!(format_bytes(0), "0 B");
    assert_eq!(format_bytes(1023), "1023 B");
    assert_eq!(format_bytes(1024), "1.0 KiB");
    assert_eq!(format_bytes(1536), "1.5 KiB");
    assert_eq!(format_bytes(1_048_575), format!("{:.1} KiB", 1_048_575f64 / 1024.0));
    assert_eq!(format_bytes(1_048_576), "1.0 MiB");
    assert_eq!(format_bytes(5_000_000), format!("{:.1} MiB", 5_000_000f64 / 1_048_576.0));
    for b in [1024u64 + 51, 1024 + 52, 1280, 1792, 10_000, 99_999, 1_310_720, 123_456_789] {
        let (unit, name) = if b < 1_048_576 { (1024.0, "KiB") } else { (1_048_576.0, "MiB") };
        assert_eq!(format_bytes(b), format!("{:.1} {}", b as f64 / unit, name));
    }
}

#[test]
fn the_status_is_written_down() {
    let interface = |name: &str, address: Option<&str>, port| InterfaceStatus {
        name: name.to_string(),
        online: address.is_some(),
        address: address.map(|a| a.to_string()),
        port,
        rx_bytes: 1,
        tx_bytes: 2,
    };
    let mut s = NodeStatus {
        node_name: "n".to_string(),
        identity_hash: vec![7; 16],
        propagation_hash: Some(vec![8; 16]),
        commit: "0123456789".to_string(),
        interfaces: vec![interface("a", Some("h"), Some(9)), interface("b", None, None)],
        uptime_secs: 3,
        subscribers: 4,
        blobs: 5,
        notify_registrations: 6,
    };
    let text = write_status(&s);
    assert!(text.starts_with("{\n  \"node_name\": \"n\",\n  \"identity\": \"07070707070707070707070707070707\",\n"));
    assert!(text.contains(&format!("    \"rfed.node\": \"{}\",\n", hex(&Service::Node.hash(&[7; 16])))));
    assert!(text.contains(&format!("    \"lxmf.propagation\": \"{}\"\n  }},\n", "08".repeat(16))));
    assert!(text.contains("  \"commit_hash\": \"0123456\",\n"));
    assert!(text.contains(
        "    {\n      \"name\": \"a\",\n      \"connected\": true,\n      \"address\": \"h\",\n      \"port\": 9,\n      \
         \"rx_bytes\": 1,\n      \"tx_bytes\": 2\n    },\n    {\n      \"name\": \"b\",\n      \"connected\": false,\n",
    ));
    assert!(text.ends_with(
        "  \"stats\": {\n    \"uptime_secs\": 3,\n    \"subscribers\": 4,\n    \"blobs\": 5,\n    \
         \"notify_registrations\": 6\n  }\n}\n",
    ));
    s.interfaces = Vec::new();
    s.propagation_hash = None;
    let text = write_status(&s);
    assert!(text.contains("    \"lxmf.propagation\": \"\"\n") && text.contains("  \"interfaces\": [],\n"));
}

fn no_policy() -> PolicySettings {
    PolicySettings {
        stamp_cost: None,
        stamp_flexibility: None,
        deferred_queue_limit: None,
        deferred_pull_batch_limit: None,
        allow_notify_registration: None,
        allow_subscription: None,
        trusted_backup_only: None,
    }
}

fn no_settings() -> FileSettings {
    FileSettings {
        name: None,
        announce_interval_minutes: None,
        announce_at_start: None,
        lxmf_propagation: None,
        lxmf_propagation_autopeer: None,
        default_policy: no_policy(),
        vip_policy: no_policy(),
        vip_subscribers: Vec::new(),
        trusted_backup_peers: Vec::new(),
        primary_node: None,
        secondary_nodes: Vec::new(),
        owner_offline: None,
        peering_cost: None,
        static_peers: Vec::new(),
        from_static_only: None,
        propagation_peers: Vec::new(),
        limit_mb: None,
        transfer_limit_mb: None,
        sync_limit_mb: None,
    }
}

fn args(list: &[&str]) -> Vec<String> {
    list.iter().map(|s| s.to_string()).collect()
}

#[test]
fn arguments_are_found_behind_their_flags() {
    let a = args(&["rfed", "--name", "x", "--static-peer", "aa", "--static-peer", "bb", "--name"]);
    assert_eq!(arg_value(&a, "--name"), Some("x"));
    assert_eq!(arg_value(&a, "--none"), None);
    assert!(has_flag(&a, "--name") && !has_flag(&a, "--none"));
    assert_eq!(arg_values(&a, "--static-peer"), vec!["aa", "bb"]);
    assert_eq!(config_dir(&args(&["rfed", "--config", "/c"]), "/home"), "/c");
    assert_eq!(config_dir(&args(&["rfed"]), "/home"), "/home/.rfed");
    assert_eq!(parse_hashes(&args(&[" 0a ", "0B"]), "bad: "), Ok(vec![vec![0x0A], vec![0x0B]]));
    assert_eq!(parse_hashes(&args(&["0a", "0"]), "bad: "), Err("bad: 0".to_string()));
}

fn merged(list: &[&str], file: &FileSettings) -> Result<rfed::config::NodeConfig, String> {
    assert!(settings_in_range(&args(list), file));
    merge_config(&args(list), file, "/c".to_string(), None, None, None)
}

#[test]
fn a_configuration_is_put_together() {
    let c = merged(&["rfed"], &no_settings()).expect("nothing is wrong");
    assert_eq!(c.display_name, "rfed");
    assert_eq!(c.identity_file, "/c/identity");
    assert_eq!(c.announce_interval_secs, 21_600);
    assert!(c.announce_at_start);
    assert_eq!(c.storage_limit_bytes, 2000 * 1_048_576);
    assert_eq!(c.peering_cost, Some(18));
    assert_eq!(c.owner_offline, 90_000_000_000);
    let mut file = no_settings();
    file.name = Some("file".to_string());
    file.announce_interval_minutes = Some(10);
    file.limit_mb = Some(1);
    file.static_peers = vec!["01".repeat(16)];
    file.secondary_nodes = vec!["02".repeat(16), "03".to_string()];
    file.primary_node = Some("04".repeat(16));
    file.default_policy.stamp_cost = Some(4);
    file.vip_policy.stamp_cost = Some(5);
    let c = merged(&["rfed"], &file).expect("nothing is wrong");
    assert_eq!(c.display_name, "file");
    assert_eq!(c.announce_interval_secs, 600);
    assert_eq!(c.storage_limit_bytes, 1_048_576);
    assert_eq!(c.static_peers, vec![vec![1; 16]]);
    assert_eq!(c.secondary_nodes, vec![vec![2; 16]], "a hash of another length is passed over");
    assert_eq!(c.primary_node, Some(vec![4; 16]));
    assert_eq!(c.default_policy.stamp_cost, Some(4));
    assert_eq!(c.vip_policy.stamp_cost, Some(5));
    let static_peer = "05".repeat(16);
    let c = merged(
        &["rfed", "--name", "cli", "--storage-limit", "2", "--static-peer", &static_peer, "--no-announce-at-start"],
        &file,
    )
    .expect("nothing is wrong");
    assert_eq!(c.display_name, "cli");
    assert_eq!(c.storage_limit_bytes, 2 * 1_048_576);
    assert_eq!(c.static_peers, vec![vec![5; 16]]);
    assert!(!c.announce_at_start);
    let p = default_policy(&args(&["rfed"]), &no_policy());
    assert_eq!((p.stamp_cost, p.stamp_flexibility), (Some(16), Some(3)));
    assert_eq!(default_policy(&args(&["rfed", "--stamp-cost", "0"]), &no_policy()).stamp_cost, Some(0));
    assert!(vip_policy(&no_policy()).allow_subscription);
}

#[test]
fn every_bad_hash_is_told() {
    let mut file = no_settings();
    file.vip_subscribers = vec!["x".to_string()];
    assert_eq!(merged(&["rfed"], &file).err().unwrap(), "Invalid VIP subscriber hash in config: x");
    let mut file = no_settings();
    file.trusted_backup_peers = vec!["x".to_string()];
    assert_eq!(merged(&["rfed"], &file).err().unwrap(), "Invalid trusted_backup_peer hash in config: x");
    let mut file = no_settings();
    file.static_peers = vec!["x".to_string()];
    assert_eq!(merged(&["rfed"], &file).err().unwrap(), "Invalid static_peer in config: x");
    assert_eq!(
        merged(&["rfed", "--static-peer", "y"], &file).err().unwrap(),
        "Invalid --static-peer hash: y",
    );
    assert_eq!(
        merged(&["rfed", "--secondary-node", "y"], &no_settings()).err().unwrap(),
        "Invalid --secondary-node hash: y",
    );
    let mut file = no_settings();
    file.propagation_peers = vec!["x".to_string()];
    assert_eq!(merged(&["rfed"], &file).err().unwrap(), "Invalid propagation_peer hash in config: x");
    let mut file = no_settings();
    file.limit_mb = Some(u64::MAX);
    assert!(!settings_in_range(&args(&["rfed"]), &file));
}
