use rfed::config::{NodeConfig, TierPolicy};
use rfed::distro::Sending;
use rfed::fanout::{
    advance, count_handed_off, delivered, delivery_destination, delivery_payload, handed_off, is_over,
    unconfirmed_subscriber, Event, FanoutPlan, Stage,
};
use rfed::handoff::{await_packet_proof, PacketProof};
use rfed::digest::destination_hash;
use rfed::stream_registry::{PushOutcome, StreamDispatchResult};
use rfed::subscription::SubscriptionTable;

const NOTHING: StreamDispatchResult = StreamDispatchResult { matched: 0, sent: 0 };

/// A subscriber without link and stream, as the network finds it.
struct FakeStack {
    known: bool,
    path: bool,
    interface: bool,
    packets: usize,
    path_requests: usize,
}

impl FakeStack {
    fn new(known: bool) -> FakeStack {
        FakeStack { known, path: true, interface: true, packets: 0, path_requests: 0 }
    }
}

/// Runs a delivery to its end. A packet that goes out waits for its proof
/// where one is asked for.
fn fan_out_with(stack: &mut FakeStack, proof: PacketProof) -> (Stage, Option<PushOutcome>) {
    let mut stage = Stage::Start;
    let mut push = None;
    while !is_over(stage) {
        let event = match stage {
            Stage::Start => Event::Found { owner_reachable: false, has_session: false },
            Stage::Link | Stage::Stream => Event::Dispatched(NOTHING),
            Stage::Recall => Event::Recalled(stack.known),
            Stage::Path => Event::PathKnown(stack.path),
            _ => Event::PacketDone(if stack.interface {
                stack.packets += 1;
                push = await_packet_proof(proof);
                Sending::Sent
            } else {
                Sending::NoInterface
            }),
        };
        stage = advance(stage, event);
    }
    if stage == Stage::HandOffAndRequestPath {
        stack.path_requests += 1;
    }
    (stage, push)
}

#[test]
fn a_channel_packet_nobody_proves_is_queued_and_pushed() {
    let mut stack = FakeStack::new(true);
    let (stage, push) = fan_out_with(&mut stack, PacketProof::Required);
    assert_eq!(count_handed_off(&vec![stage]), 0, "nothing handed off before the receipt concludes");
    let mut push = push.expect("the proof is waited for");
    assert!(!push.was_handed_off());
    assert!(push.timed_out(), "handed off on the receipt timeout");
    assert!(push.was_handed_off());
    let who = unconfirmed_subscriber(&[5; 16]);
    assert_eq!(who.queue_key, vec![5; 16]);
    assert_eq!(who.wake_key, vec![5; 16]);
}

#[test]
fn while_the_proof_is_observed_an_unproven_packet_is_sent_once() {
    let mut stack = FakeStack::new(true);
    let (stage, push) = fan_out_with(&mut stack, PacketProof::Observed);
    assert_eq!(count_handed_off(&vec![stage]), 0);
    assert_eq!(stack.packets, 1, "sent once");
    assert!(push.is_none(), "not queued, not pushed");
}

#[test]
fn a_proved_channel_packet_is_delivered() {
    let mut stack = FakeStack::new(true);
    let (stage, push) = fan_out_with(&mut stack, PacketProof::Required);
    assert!(delivered(stage));
    let mut push = push.expect("the proof is waited for");
    assert!(!push.proved(), "a proved packet is not handed off");
    assert!(push.is_proved() && !push.was_handed_off());
}

#[test]
fn an_unknown_subscriber_is_queued_and_pushed_at_once() {
    let mut stack = FakeStack::new(false);
    let (stage, push) = fan_out_with(&mut stack, PacketProof::Required);
    assert_eq!(count_handed_off(&vec![stage]), 1);
    assert!(handed_off(stage));
    assert!(push.is_none());
    assert_eq!(stack.packets, 0);
}

#[test]
fn a_packet_no_interface_takes_is_queued_and_pushed_and_its_path_requested() {
    let mut stack = FakeStack::new(true);
    stack.interface = false;
    let (stage, _) = fan_out_with(&mut stack, PacketProof::Required);
    assert_eq!(count_handed_off(&vec![stage]), 1);
    assert_eq!(stack.path_requests, 1);
}

#[test]
fn routes_are_tried_in_order_and_only_one_delivers() {
    let sent = StreamDispatchResult { matched: 1, sent: 1 };
    let start = |owner_reachable, has_session| advance(Stage::Start, Event::Found { owner_reachable, has_session });
    assert_eq!(start(true, true), Stage::Suppressed);
    assert_eq!(start(false, true), Stage::Link);
    assert_eq!(start(false, false), Stage::Stream);
    assert_eq!(advance(Stage::Link, Event::Dispatched(sent)), Stage::Pushed);
    assert_eq!(advance(Stage::Link, Event::Dispatched(NOTHING)), Stage::Stream);
    assert_eq!(advance(Stage::Stream, Event::Dispatched(sent)), Stage::Streamed);
    assert_eq!(advance(Stage::Stream, Event::Dispatched(NOTHING)), Stage::Recall);
    assert_eq!(advance(Stage::Recall, Event::Recalled(true)), Stage::Path);
    assert_eq!(advance(Stage::Path, Event::PathKnown(false)), Stage::HandOff);
    assert_eq!(advance(Stage::Packet, Event::PacketDone(Sending::Failed)), Stage::HandOff);
    assert_eq!(advance(Stage::Packet, Event::PacketDone(Sending::Sent)), Stage::Sent);
    assert_eq!(advance(Stage::Sent, Event::PathKnown(false)), Stage::Sent, "what is over stays over");
    assert!(!is_over(Stage::Packet) && is_over(Stage::Suppressed));
}

#[test]
fn a_delivery_is_addressed_and_framed() {
    assert_eq!(delivery_payload(&[1; 2], b"blob"), [vec![1; 2], b"blob".to_vec()].concat());
    assert_eq!(delivery_destination(&[5; 16]), destination_hash(&[5; 16], "rfed", &["delivery"]));
}

#[test]
fn a_plan_holds_the_subscribers_and_the_limits_of_their_tiers() {
    let mut table = SubscriptionTable::load(Vec::new());
    table.subscribe(vec![1; 16], vec![0xC1; 16], 1);
    table.subscribe_backup(vec![2; 16], vec![0xC1; 16], vec![9; 16], 1);
    table.subscribe(vec![3; 16], vec![0xC2; 16], 1);
    let config = NodeConfig {
        config_dir: String::new(),
        rns_config_dir: None,
        identity_file: String::new(),
        display_name: String::new(),
        announce_interval_secs: 1,
        announce_at_start: false,
        default_policy: TierPolicy::default(),
        vip_policy: TierPolicy::vip_default(),
        vip_subscribers: vec![vec![2; 16]],
        peering_cost: None,
        storage_limit_bytes: 0,
        transfer_limit_bytes: None,
        sync_limit_bytes: None,
        static_peers: Vec::new(),
        from_static_only: false,
        trusted_backup_peers: Vec::new(),
        primary_node: None,
        secondary_nodes: Vec::new(),
        owner_offline: 0,
        lxmf_propagation_enabled: false,
        lxmf_propagation_autopeer: false,
        lxmf_propagation_peers: Vec::new(),
    };
    let plan = FanoutPlan::build(&table, &config, &[0xC1; 16]);
    assert_eq!(plan.subscribers, vec![(vec![1; 16], None), (vec![2; 16], Some(vec![9; 16]))]);
    assert_eq!(plan.limit_for(&[1; 16]), 256);
    assert_eq!(plan.limit_for(&[2; 16]), 1024);
}
