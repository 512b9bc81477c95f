use rfed::id_map::IdMap;
use rfed::link_session::{evict_others, paths, push_acknowledged, push_data, wants_channel, LinkSessionRegistry};
use rfed::sessions::{FirstOnly, LinkPush};

const SUB: &[u8] = b"subscriber-hash!";
const OTHER_SUB: &[u8] = b"someone-else!!!!";
const CHAN: &[u8] = b"channel-hash-16b";
const OTHER_CHAN: &[u8] = b"other-channel!!!";

fn filters(hashes: &[&[u8]]) -> Vec<Vec<u8>> {
    hashes.iter().map(|h| h.to_vec()).collect()
}

#[test]
fn bound_subscriber_and_channel_is_a_match() {
    assert!(wants_channel(Some(SUB), &filters(&[CHAN]), SUB, CHAN));
}

#[test]
fn another_subscribers_session_never_matches() {
    assert!(!wants_channel(Some(OTHER_SUB), &filters(&[CHAN]), SUB, CHAN));
}

#[test]
fn a_channel_outside_the_filter_set_does_not_match() {
    assert!(!wants_channel(Some(SUB), &filters(&[OTHER_CHAN]), SUB, CHAN));
}

#[test]
fn a_session_with_no_subscriber_bound_does_not_match() {
    assert!(!wants_channel(None, &filters(&[CHAN]), SUB, CHAN));
}

#[test]
fn a_new_link_bound_for_the_same_subscriber_replaces_the_old_one() {
    let mut sessions: IdMap<Option<Vec<u8>>> = IdMap::new();
    sessions.insert(vec![1; 16], Some(b"device-A".to_vec()));
    sessions.insert(vec![2; 16], Some(b"device-A".to_vec()));
    sessions.insert(vec![3; 16], Some(b"device-B".to_vec()));
    sessions.insert(vec![4; 16], None);
    let replaced = evict_others(&mut sessions, &[9; 16], |bound: &Option<Vec<u8>>| {
        bound.as_deref() == Some(b"device-A".as_slice())
    });
    assert_eq!(replaced, vec![vec![1; 16], vec![2; 16]], "both of device A's earlier links are replaced");
    assert!(sessions.contains(&vec![3; 16]), "device B's link is untouched");
    assert!(sessions.contains(&vec![4; 16]), "an unbound session is untouched");
    assert_eq!(sessions.len(), 2);
}

#[test]
fn rebinding_the_same_link_replaces_nothing() {
    let mut sessions: IdMap<Option<Vec<u8>>> = IdMap::new();
    sessions.insert(vec![1; 16], Some(b"device-A".to_vec()));
    let replaced = evict_others(&mut sessions, &[1; 16], |bound: &Option<Vec<u8>>| {
        bound.as_deref() == Some(b"device-A".as_slice())
    });
    assert!(replaced.is_empty(), "a repeat open on the same link is reconfiguration, not replacement");
    assert_eq!(sessions.len(), 1);
}

#[test]
fn an_empty_filter_set_stops_pushes() {
    assert!(!wants_channel(Some(SUB), &[], SUB, CHAN));
}

#[test]
fn every_path_is_its_aspect_chain() {
    let table: &[(&str, &str)] = &[
        ("node.offer", paths::NODE_OFFER),
        ("node.get", paths::NODE_GET),
        ("node.backup.push", paths::NODE_BACKUP_PUSH),
        ("node.capabilities", paths::NODE_CAPABILITIES),
        ("channel.subscribe", paths::CHANNEL_SUBSCRIBE),
        ("channel.unsubscribe", paths::CHANNEL_UNSUBSCRIBE),
        ("channel.publish", paths::CHANNEL_PUBLISH),
        ("channel.pull", paths::CHANNEL_PULL),
        ("channel.stream.open", paths::CHANNEL_STREAM_OPEN),
        ("propagation.stream.open", paths::PROPAGATION_STREAM_OPEN),
        ("notify.register", paths::NOTIFY_REGISTER),
        ("notify.unregister", paths::NOTIFY_UNREGISTER),
        ("notify.clear", paths::NOTIFY_CLEAR),
        ("distro.register", paths::DISTRO_REGISTER),
        ("distro.announce", paths::DISTRO_ANNOUNCE),
        ("distro.pull", paths::DISTRO_PULL),
        ("distro.unregister", paths::DISTRO_UNREGISTER),
        ("distro.list", paths::DISTRO_LIST),
        ("delivery", paths::DELIVERY),
        ("lxmf.delivery", paths::LXMF_DELIVERY),
        ("notify", paths::NOTIFY),
    ];
    for (dotted, path) in table {
        assert_eq!(
            format!("/{}", dotted.replace('.', "/")),
            *path,
            "rfed.link path for {dotted} must be its aspect chain",
        );
    }
}

#[test]
fn paths_are_pairwise_distinct() {
    let all = [
        paths::NODE_OFFER,
        paths::NODE_GET,
        paths::NODE_BACKUP_PUSH,
        paths::NODE_CAPABILITIES,
        paths::CHANNEL_SUBSCRIBE,
        paths::CHANNEL_UNSUBSCRIBE,
        paths::CHANNEL_PUBLISH,
        paths::CHANNEL_PULL,
        paths::CHANNEL_STREAM_OPEN,
        paths::PROPAGATION_STREAM_OPEN,
        paths::NOTIFY_REGISTER,
        paths::NOTIFY_UNREGISTER,
        paths::NOTIFY_CLEAR,
        paths::DISTRO_REGISTER,
        paths::DISTRO_ANNOUNCE,
        paths::DISTRO_PULL,
        paths::DISTRO_UNREGISTER,
        paths::DISTRO_LIST,
        paths::DELIVERY,
        paths::LXMF_DELIVERY,
        paths::NOTIFY,
    ];
    for i in 0..all.len() {
        for j in (i + 1)..all.len() {
            assert_ne!(all[i], all[j], "duplicate rfed.link path");
        }
    }
}

#[test]
fn push_paths_discriminate_payload_type() {
    assert_ne!(paths::DELIVERY, paths::LXMF_DELIVERY);
    assert!(paths::LXMF_DELIVERY.starts_with("/lxmf/"));
}

#[test]
fn a_device_is_pushed_to_on_its_newest_link_only() {
    let mut r = LinkSessionRegistry::new();
    assert!(r.configure_channels(&[1; 16], SUB.to_vec(), filters(&[CHAN])).is_empty());
    assert_eq!(r.configure_channels(&[2; 16], SUB.to_vec(), filters(&[CHAN])), vec![vec![1; 16]]);
    assert!(r.has_channel_session(SUB, CHAN) && !r.has_channel_session(SUB, OTHER_CHAN));
    assert_eq!(r.channel_links(SUB, CHAN), vec![vec![2; 16]]);
    assert!(r.configure_delivery(&[2; 16], vec![7; 16]).is_empty());
    assert_eq!(r.channel_links(SUB, CHAN), vec![vec![2; 16]], "a link may carry both");
    assert_eq!(r.configure_delivery(&[3; 16], vec![7; 16]), vec![vec![2; 16]]);
    assert_eq!(r.delivery_links(&[7; 16]), vec![vec![3; 16]]);
    r.configure_delivery(&[4; 16], vec![8; 16]);
    let result = r.dispatched(&vec![(vec![3; 16], LinkPush::LinkGone), (vec![4; 16], LinkPush::Sent)]);
    assert_eq!((result.matched, result.sent), (2, 1));
    assert!(r.delivery_links(&[7; 16]).is_empty());
    assert!(r.remove(&[4; 16]) && !r.remove(&[4; 16]));
}

#[test]
fn a_push_is_a_binary_value_and_is_acknowledged_by_true() {
    assert_eq!(push_data(b"ab"), vec![0xc4, 0x02, b'a', b'b']);
    assert!(push_acknowledged(Some(&[0xc3])));
    assert!(!push_acknowledged(Some(&[0xc2])) && !push_acknowledged(Some(&[])) && !push_acknowledged(None));
}

#[test]
fn only_the_first_passes() {
    let mut gate = FirstOnly::new();
    assert!(gate.pass());
    assert!(!gate.pass() && !gate.pass());
}
