use rfed::config::{min_stamp_cost, NodeConfig, TierPolicy};

#[test]
fn default_tier_advertises_nonzero_stamp_cost_and_flexibility() {
    let p = TierPolicy::default();
    let cost = p.stamp_cost.expect("default tier MUST set stamp_cost");
    assert!(cost > 0);
    let flex = p.stamp_flexibility.expect("default tier MUST set stamp_flexibility");
    assert!(flex > 0);
    assert!(flex <= cost);
}

#[test]
fn vip_tier_relaxes_default_tier() {
    let d = TierPolicy::default();
    let v = TierPolicy::vip_default();
    let dc = d.stamp_cost.unwrap();
    let vc = v.stamp_cost.unwrap();
    assert!(vc <= dc, "VIP stamp_cost must not exceed default ({vc} > {dc})");
    assert!(v.deferred_queue_limit >= d.deferred_queue_limit);
}

#[test]
fn deferred_pull_batch_limit_defaults_to_none() {
    assert!(TierPolicy::default().deferred_pull_batch_limit.is_none());
    assert!(TierPolicy::vip_default().deferred_pull_batch_limit.is_none());
}

fn empty_config(default: TierPolicy, vip: TierPolicy, vips: Vec<Vec<u8>>) -> NodeConfig {
    NodeConfig {
        config_dir: "/var/lib/rfed".to_string(),
        rns_config_dir: None,
        identity_file: "/var/lib/rfed/identity".to_string(),
        display_name: "test".to_string(),
        announce_interval_secs: 0,
        announce_at_start: false,
        default_policy: default,
        vip_policy: vip,
        vip_subscribers: vips,
        peering_cost: None,
        storage_limit_bytes: 0,
        transfer_limit_bytes: None,
        sync_limit_bytes: None,
        static_peers: Vec::new(),
        from_static_only: false,
        trusted_backup_peers: Vec::new(),
        primary_node: None,
        secondary_nodes: Vec::new(),
        owner_offline: 90_000_000_000,
        lxmf_propagation_enabled: false,
        lxmf_propagation_autopeer: false,
        lxmf_propagation_peers: Vec::new(),
    }
}

#[test]
fn policy_for_returns_vip_for_listed_hashes() {
    let vip_hash = vec![0xAAu8; 16];
    let other_hash = vec![0xBBu8; 16];
    let cfg = empty_config(TierPolicy::default(), TierPolicy::vip_default(), vec![vip_hash.clone()]);
    let vip_cost = cfg.policy_for(&vip_hash).stamp_cost.unwrap();
    let other_cost = cfg.policy_for(&other_hash).stamp_cost.unwrap();
    assert_eq!(vip_cost, TierPolicy::vip_default().stamp_cost.unwrap());
    assert_eq!(other_cost, TierPolicy::default().stamp_cost.unwrap());
    assert_ne!(vip_cost, other_cost, "VIP and default tiers must differ in this fixture");
}

#[test]
fn policy_for_pull_batch_limit_override_is_honored() {
    let mut vip = TierPolicy::vip_default();
    vip.deferred_pull_batch_limit = Some(50);
    let vip_hash = vec![0x77u8; 16];
    let cfg = empty_config(TierPolicy::default(), vip, vec![vip_hash.clone()]);
    assert_eq!(
        cfg.policy_for(&vip_hash).deferred_pull_batch_limit,
        Some(50),
        "the override of the listed tier must be seen",
    );
    assert_eq!(
        cfg.policy_for(&[0u8; 16]).deferred_pull_batch_limit,
        None,
        "the default tier must continue to say nothing",
    );
}

#[test]
fn files_lie_in_the_configuration_directory() {
    let mut cfg = empty_config(TierPolicy::default(), TierPolicy::vip_default(), Vec::new());
    assert_eq!(cfg.blob_store_dir(), "/var/lib/rfed/blobs");
    assert_eq!(cfg.subscription_file(), "/var/lib/rfed/subscriptions.rmp");
    assert_eq!(cfg.notify_registry_file(), "/var/lib/rfed/notify_registrations.rmp");
    assert_eq!(cfg.deferred_queue_file(), "/var/lib/rfed/deferred_delivery.rmp");
    assert_eq!(cfg.distro_file(), "/var/lib/rfed/distro.rmp");
    assert_eq!(cfg.distro_announce_file(), "/var/lib/rfed/distro_announces.rmp");
    assert_eq!(cfg.peer_state_file(), "/var/lib/rfed/peers.rmp");
    cfg.config_dir = "/data/".to_string();
    assert_eq!(cfg.peer_state_file(), "/data/peers.rmp");
    cfg.config_dir = String::new();
    assert_eq!(cfg.peer_state_file(), "peers.rmp");
}

#[test]
fn slack_lowers_the_cost_and_never_below_nothing() {
    assert_eq!(min_stamp_cost(16, Some(3)), 13);
    assert_eq!(min_stamp_cost(16, None), 16);
    assert_eq!(min_stamp_cost(2, Some(3)), 0);
}
