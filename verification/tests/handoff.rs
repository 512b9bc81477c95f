use rfed::deferred_queue::DeferredQueue;
use rfed::handoff::{defer_then_wake, registrations_for, PacketProof, Unconfirmed, DELIVERY_PACKET_PROOF};
use rfed::notify::NotifyRegistry;

#[test]
fn the_packet_proof_is_observed_until_the_apps_are_updated() {
    assert_eq!(DELIVERY_PACKET_PROOF, PacketProof::Observed);
}

#[test]
fn an_undelivered_blob_waits_and_the_relays_are_told() {
    let mut queue = DeferredQueue::load(None);
    let mut registry = NotifyRegistry::load(Vec::new());
    registry.register_for_channel(vec![2; 16], Some(vec![0xC1; 16]), "aa".repeat(16), 1);
    let who = Unconfirmed { queue_key: vec![1; 16], wake_key: vec![2; 16] };
    let woken = defer_then_wake(&mut queue, &registry, &who, 8, &[0xC1; 16], b"blob", Some(&[0xC1; 16]), 5);
    assert_eq!(woken.len(), 1);
    let waiting = queue.drain(&[1; 16]);
    assert_eq!(waiting.len(), 1);
    assert_eq!(waiting[0].blob, b"blob");
    assert!(registrations_for(&registry, &[1; 16], None).is_empty());
}
