use rfed::sessions::LinkPush;
use rfed::stream_registry::{ChannelStreamRegistry, PropagationStreamRegistry, PushOutcome, StreamDispatchResult};

#[test]
fn an_unproven_receipt_hands_the_push_off_once() {
    let mut push = PushOutcome::new();
    push.receipt_pending();
    assert!(!push.dispatch_done());
    assert!(push.timed_out(), "the handed-off push reaches the caller's route");
    assert!(push.was_handed_off());
    assert!(push.is_settled());
    assert!(!push.is_proved());
}

#[test]
fn a_proved_receipt_delivers_the_push() {
    let mut push = PushOutcome::new();
    push.receipt_pending();
    push.dispatch_done();
    assert!(!push.proved());
    assert!(push.is_proved());
    assert!(!push.was_handed_off(), "a proved push is never handed off");
}

#[test]
fn a_proof_before_the_callbacks_are_tied_still_counts() {
    let mut push = PushOutcome::new();
    push.receipt_pending();
    assert!(!push.proved());
    assert!(!push.dispatch_done());
    assert!(push.is_settled());
    assert!(push.is_proved());
    assert!(!push.was_handed_off());
}

#[test]
fn one_proving_link_is_enough() {
    let mut push = PushOutcome::new();
    push.receipt_pending();
    push.receipt_pending();
    push.dispatch_done();
    assert!(!push.timed_out());
    assert!(!push.proved());
    assert!(push.is_settled());
    assert!(!push.was_handed_off(), "the device got it on the other link");
}

#[test]
fn a_timeout_during_dispatch_does_not_end_the_push_early() {
    let mut push = PushOutcome::new();
    push.receipt_pending();
    push.timed_out();
    assert!(!push.was_handed_off(), "the dispatch still holds the push open");
    push.receipt_pending();
    push.dispatch_done();
    push.proved();
    assert!(!push.was_handed_off());
}

#[test]
fn nothing_sent_means_no_hand_off() {
    let mut push = PushOutcome::new();
    push.dispatch_done();
    assert!(!push.was_handed_off());
}

#[test]
fn a_channel_stream_is_found_by_subscriber_and_channel() {
    let mut streams = ChannelStreamRegistry::new();
    streams.configure(&[1; 16], vec![0xA0; 16], vec![vec![0xC1; 16], vec![0xC2; 16]]);
    assert_eq!(streams.links(&[0xA0; 16], &[0xC1; 16]), vec![vec![1; 16]]);
    assert!(streams.links(&[0xA0; 16], &[0xC3; 16]).is_empty());
    assert!(streams.links(&[0xB0; 16], &[0xC1; 16]).is_empty());
    streams.configure(&[2; 16], vec![0xA0; 16], vec![vec![0xC3; 16]]);
    assert!(streams.links(&[0xA0; 16], &[0xC1; 16]).is_empty(), "a later link of the subscriber replaces the earlier");
    assert_eq!(streams.links(&[0xA0; 16], &[0xC3; 16]), vec![vec![2; 16]]);
    assert!(streams.remove(&[2; 16]));
    assert!(!streams.remove(&[2; 16]));
}

#[test]
fn a_link_that_is_gone_loses_its_stream() {
    let mut streams = PropagationStreamRegistry::new();
    assert!(streams.register(&[1; 16], vec![0xD0; 16]).is_ok());
    assert_eq!(streams.register(&[1; 16], vec![0xD0; 16]), Err("already_open"));
    assert_eq!(streams.links(&[0xD0; 16]), vec![vec![1; 16]]);
    let result = streams.dispatched(&vec![(vec![1; 16], LinkPush::LinkGone)]);
    assert_eq!(result, StreamDispatchResult { matched: 1, sent: 0 });
    assert!(result.had_sessions() && !result.delivered());
    assert!(streams.links(&[0xD0; 16]).is_empty());
}

#[test]
fn a_push_that_could_not_go_out_keeps_the_stream() {
    let mut streams = ChannelStreamRegistry::new();
    streams.configure(&[1; 16], vec![0xA0; 16], vec![vec![0xC1; 16]]);
    let result = streams.dispatched(&vec![(vec![1; 16], LinkPush::NotSent)]);
    assert!(!result.delivered());
    assert_eq!(streams.links(&[0xA0; 16], &[0xC1; 16]).len(), 1);
    assert!(streams.dispatched(&vec![(vec![1; 16], LinkPush::Sent)]).delivered());
    assert_eq!(StreamDispatchResult::default(), StreamDispatchResult { matched: 0, sent: 0 });
}
