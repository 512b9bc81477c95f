use rfed::blob_store::{blob_path, new_message_id, BlobStore, BLOB_TTL};
use rfed::channel::ChannelKeypair;
use rfed::subscription::SubscriptionTable;
use sha2::Digest;

#[test]
fn a_channels_keys_follow_from_its_name() {
    let k = ChannelKeypair::from_name("public.lobby");
    let seed: [u8; 32] = sha2::Sha256::digest(b"public.lobby").into();
    assert_eq!(k.name, "public.lobby");
    assert_eq!(k.x25519_secret, seed.to_vec());
    assert_eq!(k.ed25519_secret, seed.to_vec());
    let x = x25519_dalek::PublicKey::from(&x25519_dalek::StaticSecret::from(seed));
    assert_eq!(k.x25519_public, x.as_bytes().to_vec());
    let secret = ed25519_dalek::SecretKey::from_bytes(&seed).unwrap();
    let e = ed25519_dalek::PublicKey::from(&secret);
    assert_eq!(k.ed25519_public, e.as_bytes().to_vec());
    let bundle = [x.as_bytes().to_vec(), e.as_bytes().to_vec()].concat();
    assert_eq!(k.public_key_bundle(), bundle);
    assert_eq!(k.private_key_bundle(), [seed.to_vec(), seed.to_vec()].concat());
    assert_eq!(k.hash(), sha2::Sha256::digest(&bundle)[..16].to_vec());
    let p = ChannelKeypair::from_path(&["public", "lobby"]);
    assert_eq!(p.name, "public.lobby");
    assert_eq!(p.hash(), k.hash());
    assert_eq!(ChannelKeypair::from_path(&[]).name, "");
    assert_ne!(ChannelKeypair::from_name("private.lobby").hash(), k.hash());
}

#[test]
fn blobs_are_found_by_id_and_by_channel() {
    let mut s = BlobStore::open(1000);
    s.record(vec![1; 16], vec![0xA; 16], 10, 5);
    s.record(vec![2; 16], vec![0xB; 16], 20, 6);
    s.record(vec![3; 16], vec![0xA; 16], 30, 7);
    assert_eq!(s.used_bytes, 60);
    assert!(s.contains(&[2; 16]) && !s.contains(&[9; 16]));
    assert_eq!(s.destination_of(&[2; 16]), Some(vec![0xB; 16]));
    assert_eq!(s.destination_of(&[9; 16]), None);
    assert_eq!(s.message_ids_for_channel(&[0xA; 16]), vec![vec![1; 16], vec![3; 16]]);
    assert_eq!(s.all_message_ids().len(), 3);
    let gone = s.delete(&[1; 16]).expect("it was there");
    assert_eq!(gone.destination_hash, vec![0xA; 16]);
    assert!(s.delete(&[1; 16]).is_none());
    assert_eq!(s.used_bytes, 50);
    assert_eq!(blob_path("/s", &[0xA0; 2], &[0x0B; 2]), "/s/a0a0/0b0b");
    assert!(s.index_blob("0a0a", "0707", 5, 9));
    assert!(!s.index_blob("0a0", "0707", 5, 9) && !s.index_blob("0a0a", "x", 5, 9));
    assert_eq!(s.destination_of(&[7; 2]), Some(vec![0x0A; 2]));
}

#[test]
fn room_is_made_by_age() {
    let start = BLOB_TTL * 2;
    let mut s = BlobStore::open(100);
    s.last_eviction = start;
    s.record(vec![1; 16], vec![0xA; 16], 40, start - 10);
    s.record(vec![2; 16], vec![0xA; 16], 40, start - 30);
    s.record(vec![3; 16], vec![0xA; 16], 20, start - 20);
    let room = s.make_room(30, start);
    assert!(room.refused.is_none());
    assert_eq!(room.evicted.len(), 1);
    assert_eq!(room.evicted[0].message_id, vec![2; 16]);
    assert_eq!(s.used_bytes, 60);
    assert_eq!(s.evict_older_than(start + 100, 115).len(), 1);
    let room = s.make_room(500, start);
    assert_eq!(room.refused, Some("Storage limit reached (0/100 bytes)".to_string()));
    assert_eq!(s.used_bytes, 0);
    s.record(vec![4; 16], vec![0xA; 16], 1, start);
    let room = s.make_room(1, start + BLOB_TTL + 1);
    assert_eq!(room.evicted.len(), 1, "what is too old goes when it is time to look");
}

#[test]
fn a_blob_of_unknown_age_does_not_go_for_its_age() {
    let now = BLOB_TTL * 3;
    let mut s = BlobStore::open(100);
    s.record(vec![1; 16], vec![0xA; 16], 10, 0);
    s.record(vec![2; 16], vec![0xA; 16], 10, 1);
    let room = s.make_room(1, now);
    assert_eq!(room.evicted.len(), 1);
    assert_eq!(room.evicted[0].message_id, vec![2; 16]);
    assert!(s.evict_older_than(now, 0).is_empty());
    assert!(s.contains(&[1; 16]));
}

#[test]
fn ids_of_blobs_are_drawn_at_random() {
    let a = new_message_id().expect("randomness");
    let b = new_message_id().expect("randomness");
    assert_eq!(a.len(), 16);
    assert_ne!(a, b);
    assert_ne!(a, vec![0; 16]);
}

#[test]
fn subscriptions_are_kept_once_and_backups_fade() {
    let mut t = SubscriptionTable::load(Vec::new());
    assert!(t.is_empty());
    assert!(t.subscribe(vec![1; 16], vec![0xA; 16], 5));
    assert!(!t.subscribe(vec![1; 16], vec![0xA; 16], 6));
    t.subscribe_backup(vec![2; 16], vec![0xA; 16], vec![9; 16], 7);
    t.subscribe_backup(vec![2; 16], vec![0xA; 16], vec![9; 16], 20);
    t.subscribe_backup(vec![3; 16], vec![0xB; 16], vec![9; 16], 8);
    assert_eq!(t.len(), 3);
    assert_eq!(t.get_subscribers(&[0xA; 16]), vec![vec![1; 16], vec![2; 16]]);
    assert_eq!(t.get_channels_for(&[3; 16]), vec![vec![0xB; 16]]);
    assert_eq!(t.subscribed_channel_hashes(), vec![vec![0xA; 16], vec![0xB; 16]]);
    assert_eq!(t.backup_entries_for_tick().len(), 2);
    assert_eq!(t.prune_stale_backups(10, 25), 1);
    assert_eq!(t.backup_entries_for_tick(), vec![(vec![2; 16], vec![0xA; 16], vec![9; 16])]);
    assert!(t.unsubscribe(&[1; 16], &[0xA; 16]));
    assert!(!t.unsubscribe(&[1; 16], &[0xA; 16]));
    assert_eq!(t.len(), 1);
}
