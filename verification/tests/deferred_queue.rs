use rfed::deferred_queue::{read_entries, DeferredEntry, DeferredQueue, GLOBAL_LIMIT};

fn fresh_queue() -> DeferredQueue {
    DeferredQueue::load(None)
}

fn enqueue_n(q: &mut DeferredQueue, sub: &[u8], chan: &[u8], n: usize) {
    for i in 0..n {
        q.enqueue(sub.to_vec(), chan.to_vec(), vec![i as u8], 1024, 7);
    }
}

#[test]
fn drain_batch_returns_at_most_max_in_fifo_order() {
    let mut q = fresh_queue();
    let sub = vec![0xAAu8; 16];
    let chan = vec![0xBBu8; 16];
    enqueue_n(&mut q, &sub, &chan, 30);

    let page = q.drain_batch(&sub, 25);
    assert_eq!(page.len(), 25, "first page should contain exactly 25");
    for (i, pb) in page.iter().enumerate() {
        assert_eq!(pb.blob, vec![i as u8]);
        assert_eq!(pb.channel_hash, chan);
    }
    assert!(q.has_pending(&sub), "5 entries remain after first page");

    let page2 = q.drain_batch(&sub, 25);
    assert_eq!(page2.len(), 5, "second page returns the remainder");
    for (i, pb) in page2.iter().enumerate() {
        assert_eq!(pb.blob, vec![(25 + i) as u8]);
    }
    assert!(!q.has_pending(&sub), "queue exhausted after final page");
}

#[test]
fn drain_batch_is_destructive() {
    let mut q = fresh_queue();
    let sub = vec![0x11u8; 16];
    let chan = vec![0x22u8; 16];
    enqueue_n(&mut q, &sub, &chan, 5);

    let first = q.drain_batch(&sub, 3);
    let second = q.drain_batch(&sub, 3);
    assert_eq!(first.len(), 3);
    assert_eq!(second.len(), 2);
    let first_bytes: Vec<u8> = first.iter().map(|b| b.blob[0]).collect();
    let second_bytes: Vec<u8> = second.iter().map(|b| b.blob[0]).collect();
    for b in &second_bytes {
        assert!(!first_bytes.contains(b), "byte {b} returned twice");
    }
    assert!(!q.has_pending(&sub));
}

#[test]
fn drain_batch_empty_bucket_yields_empty_and_no_pending() {
    let mut q = fresh_queue();
    let sub = vec![0xCCu8; 16];
    assert_eq!(q.drain_batch(&sub, 25).len(), 0);
    assert!(!q.has_pending(&sub));
}

#[test]
fn drain_batch_max_zero_returns_nothing_and_preserves_bucket() {
    let mut q = fresh_queue();
    let sub = vec![0xDDu8; 16];
    let chan = vec![0xEEu8; 16];
    enqueue_n(&mut q, &sub, &chan, 4);

    let page = q.drain_batch(&sub, 0);
    assert_eq!(page.len(), 0);
    assert!(q.has_pending(&sub), "max=0 must not drain anything");
    assert_eq!(q.total_len(), 4);
}

#[test]
fn has_pending_is_per_subscriber() {
    let mut q = fresh_queue();
    let sub_a = vec![1u8; 16];
    let sub_b = vec![2u8; 16];
    let chan = vec![3u8; 16];
    enqueue_n(&mut q, &sub_a, &chan, 2);
    assert!(q.has_pending(&sub_a));
    assert!(!q.has_pending(&sub_b));
}

#[test]
fn drain_batch_does_not_affect_other_subscribers() {
    let mut q = fresh_queue();
    let sub_a = vec![0xA1u8; 16];
    let sub_b = vec![0xB2u8; 16];
    let chan = vec![0xC3u8; 16];
    enqueue_n(&mut q, &sub_a, &chan, 5);
    enqueue_n(&mut q, &sub_b, &chan, 7);

    let _ = q.drain_batch(&sub_a, 100);
    assert!(!q.has_pending(&sub_a));
    assert!(q.has_pending(&sub_b));
    assert_eq!(q.total_len(), 7);
}

#[test]
fn enqueue_persists_and_reload_preserves_order() {
    let mut q = fresh_queue();
    let sub = vec![0xFFu8; 16];
    let chan = vec![0x00u8; 16];
    for i in 0..3u8 {
        q.enqueue(sub.clone(), chan.clone(), vec![i], 1024, 1);
    }
    let mut q2 = DeferredQueue::load(Some(&q.save()));
    let page = q2.drain_batch(&sub, 10);
    assert_eq!(page.len(), 3);
    assert_eq!(page[0].blob, vec![0]);
    assert_eq!(page[2].blob, vec![2]);
}

#[test]
fn the_oldest_blob_makes_way_at_the_limit_of_a_subscriber() {
    let mut q = fresh_queue();
    for i in 0..4u8 {
        assert!(q.enqueue(vec![1; 16], vec![2; 16], vec![i], 3, u64::from(i)));
    }
    let left: Vec<u8> = q.drain(&[1; 16]).iter().map(|b| b.blob[0]).collect();
    assert_eq!(left, vec![1, 2, 3]);
}

#[test]
fn a_full_queue_takes_no_more() {
    let mut q = fresh_queue();
    q.global_limit = 2;
    assert!(q.enqueue(vec![1; 16], vec![9; 16], vec![0], 8, 0));
    assert!(q.enqueue(vec![2; 16], vec![9; 16], vec![1], 8, 0));
    assert!(!q.enqueue(vec![3; 16], vec![9; 16], vec![2], 8, 0));
    assert_eq!(q.total_len(), 2);
    assert_eq!(GLOBAL_LIMIT, 4096);
}

#[test]
fn a_channel_page_leaves_other_channels_waiting() {
    let mut q = fresh_queue();
    let sub = vec![1u8; 16];
    for i in 0..3u8 {
        q.enqueue(sub.clone(), vec![0xA0; 16], vec![i], 64, 0);
        q.enqueue(sub.clone(), vec![0xB0; 16], vec![10 + i], 64, 0);
    }
    let page = q.drain_channel_batch(&sub, &[0xA0; 16], 2);
    assert_eq!(page.iter().map(|b| b.blob[0]).collect::<Vec<u8>>(), vec![0, 1]);
    assert!(q.has_pending_channel(&sub, &[0xA0; 16]));
    assert!(q.has_pending_channel(&sub, &[0xB0; 16]));
    assert_eq!(q.drain(&sub).iter().map(|b| b.blob[0]).collect::<Vec<u8>>(), vec![10, 11, 2, 12]);
}

#[test]
fn what_waited_too_long_is_dropped() {
    let mut q = fresh_queue();
    q.enqueue(vec![1; 16], vec![2; 16], vec![0], 8, 100);
    q.enqueue(vec![1; 16], vec![2; 16], vec![1], 8, 200);
    assert!(!q.evict_expired(100, 200));
    assert!(q.evict_expired(100, 201));
    assert_eq!(q.drain(&[1; 16]).len(), 1);
}

#[test]
fn a_full_queue_still_takes_a_blob_that_pushes_its_subscribers_oldest_out() {
    let mut q = DeferredQueue::load(None);
    q.global_limit = 3;
    for i in 0..2u8 {
        assert!(q.enqueue(vec![1; 16], vec![0xC1; 16], vec![i], 2, 1));
    }
    assert!(q.enqueue(vec![2; 16], vec![0xC1; 16], vec![9], 2, 1));
    assert!(!q.enqueue(vec![3; 16], vec![0xC1; 16], vec![8], 2, 1), "nothing goes for it, and the queue is full");
    assert!(q.enqueue(vec![1; 16], vec![0xC1; 16], vec![2], 2, 1));
    assert_eq!(q.total_len(), 3);
    let left: Vec<u8> = q.drain(&[1; 16]).iter().map(|b| b.blob[0]).collect();
    assert_eq!(left, vec![1, 2]);
}

#[test]
fn a_saved_queue_is_loaded_as_it_was() {
    let mut q = fresh_queue();
    assert_eq!(q.save(), vec![0x90]);
    assert!(q.enqueue(vec![1; 16], vec![2; 16], vec![0, 255], 10, u64::MAX));
    assert!(q.enqueue(vec![3; 16], vec![2; 16], vec![], 10, 7));
    assert!(q.enqueue(vec![1; 16], vec![4; 16], vec![9], 10, 8));
    let bytes = q.save();
    assert_eq!(bytes[0], 0x93, "a list of three");
    assert_eq!(bytes[1], 0x94, "each of four");
    let again = DeferredQueue::load(Some(&bytes));
    assert_eq!(again.total_len(), 3);
    assert_eq!(again.global_limit, GLOBAL_LIMIT);
    let tuple = |e: &DeferredEntry| {
        (e.subscriber_hash.clone(), e.channel_hash.clone(), e.blob.clone(), e.enqueued_at)
    };
    let before: Vec<_> = q.entries.iter().map(tuple).collect();
    let after: Vec<_> = again.entries.iter().map(tuple).collect();
    assert_eq!(before, after);
    assert_eq!(again.save(), bytes);
}

#[test]
fn a_queue_that_cannot_be_read_is_empty() {
    assert_eq!(DeferredQueue::load(None).total_len(), 0);
    assert_eq!(DeferredQueue::load(Some(&[])).total_len(), 0);
    assert_eq!(DeferredQueue::load(Some(&[0xc1])).total_len(), 0);
    assert!(read_entries(&[0x91, 0x92, 0x90, 0x90]).is_none());
    assert!(read_entries(&[0x90]).unwrap().is_empty());
}
