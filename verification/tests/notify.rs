use std::cell::RefCell;
use std::io::Cursor;
use rmpv::decode::read_value;
use rmpv::Value;
use rfed::digest::destination_hash;
use rfed::handoff::{count_woken, wake_all, wake_each};
use rfed::notify::rns::{
    dispatch, encode_wake_payload, relay_wake_destination, remember_self_hosted_relay, LogLevel, RelayName, RelayStack,
    WakeDrop, WakeOutcome,
};
use rfed::notify::{validate_relay_hash, DeliveryHook, HookRegistry, NotifyRegistration, NotifyRegistry};
use rfed::text::hex;

const SUBSCRIBER: [u8; 16] = [0x55; 16];
const SENDER: [u8; 16] = [0x66; 16];

/// A network in which one relay is known.
struct FakeStack {
    relay_hash: Vec<u8>,
    identity: Option<Vec<u8>>,
    path: bool,
    transmits: bool,
    packets: RefCell<Vec<(Vec<u8>, Vec<u8>)>>,
    path_requests: RefCell<Vec<Vec<u8>>>,
}

impl FakeStack {
    fn new(relay_hash: &[u8], identity: Option<Vec<u8>>) -> FakeStack {
        FakeStack {
            relay_hash: relay_hash.to_vec(),
            identity,
            path: true,
            transmits: true,
            packets: RefCell::new(Vec::new()),
            path_requests: RefCell::new(Vec::new()),
        }
    }

    fn without_path(mut self) -> Self {
        self.path = false;
        self
    }

    fn without_interface(mut self) -> Self {
        self.transmits = false;
        self
    }
}

impl RelayStack for FakeStack {
    fn has_path(&self, destination_hash: &[u8]) -> bool {
        self.path && destination_hash == self.relay_hash.as_slice()
    }

    fn request_path(&self, destination_hash: &[u8]) {
        self.path_requests.borrow_mut().push(destination_hash.to_vec());
    }

    fn recall(&self, destination_hash: &[u8]) -> Option<Vec<u8>> {
        if destination_hash == self.relay_hash.as_slice() {
            self.identity.clone()
        } else {
            None
        }
    }

    fn send(&self, identity_hash: &[u8], name: RelayName, payload: &[u8]) -> Result<bool, String> {
        let to = destination_hash(identity_hash, name.app_name(), &[name.aspect()]);
        self.packets.borrow_mut().push((to, payload.to_vec()));
        Ok(self.transmits)
    }
}

fn map_entry<'a>(map: &'a [(Value, Value)], key: &str) -> Option<&'a Value> {
    map.iter().find(|(candidate, _)| candidate.as_str() == Some(key)).map(|(_, value)| value)
}

fn decoded_map(payload: &[u8]) -> Vec<(Value, Value)> {
    match read_value(&mut Cursor::new(payload)).expect("decode wake payload") {
        Value::Map(map) => map,
        other => panic!("expected map, got {other:?}"),
    }
}

fn identity(n: u8) -> Vec<u8> {
    vec![n; 16]
}

fn relay_hash(identity: &[u8], app_name: &str, aspect: &str) -> Vec<u8> {
    destination_hash(identity, app_name, &[aspect])
}

fn registration(relay_hash: &[u8]) -> NotifyRegistration {
    NotifyRegistration {
        subscriber_hash: SUBSCRIBER.to_vec(),
        channel_hash: None,
        relay_hash: hex(relay_hash),
        registered: 0,
    }
}

fn assert_wake_reaches_the_registered_hash(app_name: &str, aspect: &str) {
    let relay = identity(1);
    let registered = relay_hash(&relay, app_name, aspect);
    let stack = FakeStack::new(&registered, Some(relay));
    let outcome = dispatch(&stack, &registration(&registered), Some(&SENDER), None);
    assert!(
        matches!(outcome, WakeOutcome::Sent(ref to) if *to == registered),
        "a wake for a {app_name}.{aspect} registration must be addressed to the registered hash",
    );
    let packets = stack.packets.borrow();
    assert_eq!(packets.len(), 1, "exactly one wake packet");
    assert_eq!(packets[0].0, registered);
    let map = decoded_map(&packets[0].1);
    assert_eq!(map_entry(&map, "receiver"), Some(&Value::Binary(SUBSCRIBER.to_vec())));
}

#[test]
fn wake_packet_is_addressed_to_the_registered_relay_hash_apns_relay() {
    assert_wake_reaches_the_registered_hash("apns", "relay");
}

#[test]
fn wake_packet_is_addressed_to_the_registered_relay_hash_rfed_notify() {
    assert_wake_reaches_the_registered_hash("rfed", "notify");
}

#[test]
fn the_wakes_that_left_are_counted() {
    let relay = identity(4);
    let known = relay_hash(&relay, "rfed", "notify");
    let unknown = relay_hash(&identity(5), "rfed", "notify");
    let mut nameless = registration(&known);
    nameless.relay_hash = "zz".to_string();
    let list = vec![registration(&known), registration(&unknown), nameless, registration(&known)];
    let stack = FakeStack::new(&known, Some(relay.clone()));
    let network: &dyn RelayStack = &stack;
    assert_eq!(wake_all(network, &list, Some(&SENDER), None), 2);
    assert_eq!(stack.packets.borrow().len(), 2);
    assert_eq!(*stack.path_requests.borrow(), vec![unknown]);
    assert_eq!(wake_all(&FakeStack::new(&known, Some(relay)).without_interface(), &list, None, None), 0);
    assert_eq!(wake_all(&stack, &vec![], None, None), 0);
}

#[test]
fn every_wake_has_its_outcome_and_every_drop_its_line() {
    let relay = identity(4);
    let known = relay_hash(&relay, "rfed", "notify");
    let unknown = relay_hash(&identity(5), "rfed", "notify");
    let other = relay_hash(&relay, "someapp", "push");
    let mut nameless = registration(&known);
    nameless.relay_hash = "zz".to_string();
    let list = vec![registration(&known), registration(&unknown), nameless];
    let line = |r: &NotifyRegistration, detail: &str| {
        let subscriber = hex(&r.subscriber_hash);
        format!("[notify/rns] wake NOT sent to relay={} for subscriber={subscriber}: {detail}", r.relay_hash)
    };
    let told = |outcome: &WakeOutcome| match outcome {
        WakeOutcome::Dropped(d) => d.line().to_string(),
        WakeOutcome::Sent(_) => panic!("no drop"),
    };
    let stack = FakeStack::new(&known, Some(relay.clone()));
    let outcomes = wake_each(&stack, &list, None, None);
    assert_eq!(outcomes.len(), 3);
    assert!(matches!(&outcomes[0], WakeOutcome::Sent(to) if *to == known));
    assert_eq!(told(&outcomes[1]), line(&list[1], "no path to relay, path request issued"));
    assert_eq!(told(&outcomes[2]), line(&list[2], "invalid relay hash"));
    assert_eq!(count_woken(&outcomes), 1);
    let silent = FakeStack::new(&known, Some(relay.clone())).without_interface();
    let one = vec![registration(&known)];
    assert_eq!(told(&wake_each(&silent, &one, None, None)[0]), line(&one[0], "no interface took the packet"));
    let nobody = FakeStack::new(&known, None);
    assert_eq!(
        told(&wake_each(&nobody, &one, None, None)[0]),
        line(&one[0], "relay identity not known, path request issued"),
    );
    let strange = FakeStack::new(&other, Some(relay.clone()));
    let two = vec![registration(&other)];
    let detail = format!(
        "recalled identity {} derives this hash under none of apns.relay, rfed.notify, path request issued",
        hex(&relay),
    );
    assert_eq!(told(&wake_each(&strange, &two, None, None)[0]), line(&two[0], &detail));
}

#[test]
fn a_relay_under_an_unknown_name_is_reported_and_not_sent() {
    let relay = identity(2);
    let registered = relay_hash(&relay, "someapp", "push");
    let stack = FakeStack::new(&registered, Some(relay));
    let outcome = dispatch(&stack, &registration(&registered), None, None);
    assert_eq!(outcome.drop_reason(), Some(WakeDrop::NoMatchingDestination));
    assert!(stack.packets.borrow().is_empty(), "nothing is sent");
}

#[test]
fn a_recalled_key_that_is_not_the_relays_is_not_sent_to() {
    let relay = identity(3);
    let subscriber = identity(4);
    let registered = relay_hash(&relay, "apns", "relay");
    let stack = FakeStack::new(&registered, Some(subscriber));
    let outcome = dispatch(&stack, &registration(&registered), None, None);
    assert_eq!(outcome.drop_reason(), Some(WakeDrop::NoMatchingDestination));
    assert!(stack.packets.borrow().is_empty(), "nothing is sent");
    assert_eq!(*stack.path_requests.borrow(), vec![registered], "the path response carries the relay's own key");
}

#[test]
fn no_path_is_a_drop_with_a_path_request() {
    let relay = identity(5);
    let registered = relay_hash(&relay, "apns", "relay");
    let stack = FakeStack::new(&registered, Some(relay)).without_path();
    let outcome = dispatch(&stack, &registration(&registered), None, None);
    assert_eq!(outcome.drop_reason(), Some(WakeDrop::NoPath));
    assert!(stack.packets.borrow().is_empty(), "nothing is sent");
    assert_eq!(*stack.path_requests.borrow(), vec![registered]);
}

#[test]
fn no_identity_is_a_drop_with_a_path_request() {
    let relay = identity(6);
    let registered = relay_hash(&relay, "apns", "relay");
    let stack = FakeStack::new(&registered, None);
    let outcome = dispatch(&stack, &registration(&registered), None, None);
    assert_eq!(outcome.drop_reason(), Some(WakeDrop::NoIdentity));
    assert!(stack.packets.borrow().is_empty(), "nothing is sent");
    assert_eq!(*stack.path_requests.borrow(), vec![registered]);
}

#[test]
fn a_packet_no_interface_took_is_not_a_wake() {
    let relay = identity(7);
    let registered = relay_hash(&relay, "rfed", "notify");
    let stack = FakeStack::new(&registered, Some(relay)).without_interface();
    let outcome = dispatch(&stack, &registration(&registered), None, None);
    assert_eq!(outcome.drop_reason(), Some(WakeDrop::NotTransmitted));
    assert!(!outcome.is_sent());
}

#[test]
fn every_drop_is_logged_at_a_level_shown_by_default() {
    let a = identity(8);
    let apns = relay_hash(&a, "apns", "relay");
    let other = relay_hash(&a, "someapp", "push");
    let own = relay_hash(&a, "rfed", "notify");
    let mut invalid = registration(&apns);
    invalid.relay_hash = format!("{}zz", &invalid.relay_hash[2..]);
    let cases = vec![
        (FakeStack::new(&apns, Some(a.clone())).without_path(), registration(&apns), WakeDrop::NoPath, LogLevel::Notice),
        (FakeStack::new(&apns, None), registration(&apns), WakeDrop::NoIdentity, LogLevel::Notice),
        (FakeStack::new(&other, Some(a.clone())), registration(&other), WakeDrop::NoMatchingDestination, LogLevel::Warning),
        (
            FakeStack::new(&own, Some(a.clone())).without_interface(),
            registration(&own),
            WakeDrop::NotTransmitted,
            LogLevel::Warning,
        ),
        (FakeStack::new(&apns, None), invalid, WakeDrop::InvalidRelayHash, LogLevel::Warning),
    ];
    for (stack, registration, reason, level) in cases {
        let marker = format!("wake NOT sent to relay={} ", registration.relay_hash);
        match dispatch(&stack, &registration, None, None) {
            WakeOutcome::Dropped(d) => {
                assert_eq!(d.reason(), reason);
                assert_eq!(d.reason().log_level(), level);
                assert!(d.line().contains(&marker), "{}", d.line());
            },
            WakeOutcome::Sent(_) => panic!("{reason:?} is no wake"),
        }
    }
}

#[test]
fn registration_records_the_registrants_key_only_for_a_relay_it_hosts() {
    let subscriber = identity(9);
    let bridge = identity(10);
    let bridge_relay = relay_hash(&bridge, "apns", "relay");
    assert!(!remember_self_hosted_relay(&bridge_relay, Some(&subscriber)));
    let own_relay = relay_hash(&subscriber, "rfed", "notify");
    assert!(remember_self_hosted_relay(&own_relay, Some(&subscriber)));
    assert!(!remember_self_hosted_relay(&own_relay, None));
    assert_eq!(relay_wake_destination(&subscriber, &own_relay), Some(RelayName::RfedNotify));
    assert_eq!(relay_wake_destination(&subscriber, &bridge_relay), None);
}

#[test]
fn wake_payload_uses_binary_hash_fields() {
    let receiver = [0x11u8; 16];
    let sender = [0x22u8; 16];
    let channel = [0x33u8; 16];
    let map = decoded_map(&encode_wake_payload(&receiver, Some(&sender), Some(&channel)));
    assert_eq!(map_entry(&map, "receiver"), Some(&Value::Binary(receiver.to_vec())));
    assert_eq!(map_entry(&map, "sender"), Some(&Value::Binary(sender.to_vec())));
    assert_eq!(map_entry(&map, "channel"), Some(&Value::Binary(channel.to_vec())));
}

#[test]
fn wake_payload_omits_optional_fields_when_absent() {
    let receiver = [0x44u8; 16];
    let map = decoded_map(&encode_wake_payload(&receiver, None, None));
    assert_eq!(map.len(), 1);
    assert_eq!(map_entry(&map, "receiver"), Some(&Value::Binary(receiver.to_vec())));
    assert_eq!(map_entry(&map, "sender"), None);
    assert_eq!(map_entry(&map, "channel"), None);
}

#[test]
fn a_relay_hash_is_thirty_two_hexadecimal_digits() {
    assert!(validate_relay_hash("0123456789abcdef0123456789abcdef").is_ok());
    assert!(validate_relay_hash("0123456789abcdef0123456789abcde").is_err());
    assert!(validate_relay_hash("0123456789ABCDEF0123456789abcdef").is_err());
    assert_eq!(
        validate_relay_hash("0123456789abcdef0123456789abcdeg").unwrap_err(),
        "relay hash must be a 32-char lowercase hex destination hash",
    );
}

#[test]
fn a_relay_is_registered_once_and_taken_out() {
    let mut registry = NotifyRegistry::load(Vec::new());
    registry.register_for_channel(vec![1; 16], Some(vec![2; 16]), "aa".to_string(), 1);
    registry.register_for_channel(vec![1; 16], Some(vec![2; 16]), "aa".to_string(), 5);
    registry.register(vec![1; 16], "bb".to_string(), 2);
    registry.register(vec![3; 16], "cc".to_string(), 3);
    assert_eq!(registry.count(), 3);
    assert_eq!(registry.get(&[1; 16]).len(), 2);
    let for_channel = registry.get_for_channel(&[1; 16], Some(&[2; 16]));
    assert_eq!(for_channel.len(), 1);
    assert_eq!(for_channel[0].registered, 5);
    assert!(!registry.unregister(&[1; 16], "aa"));
    assert!(registry.unregister_for_channel(&[1; 16], Some(&[2; 16]), "aa"));
    assert!(registry.unregister(&[1; 16], "bb"));
    assert!(registry.clear(&[3; 16]));
    assert!(!registry.clear(&[3; 16]));
    assert_eq!(registry.registrations().len(), 0);
}

type Log = std::sync::Arc<std::sync::Mutex<Vec<(u8, Vec<u8>, Vec<u8>)>>>;

struct Listener {
    name: u8,
    log: Log,
}

impl DeliveryHook for Listener {
    fn on_deliver(&self, subscriber_pubkey: &[u8], inner_blob: &[u8]) {
        self.log.lock().unwrap().push((self.name, subscriber_pubkey.to_vec(), inner_blob.to_vec()));
    }
}

#[test]
fn every_hook_is_told_of_a_delivery() {
    let log: Log = Log::default();
    let mut hooks = HookRegistry::new();
    assert_eq!(hooks.on_deliver(&[1], &[2]), 0);
    assert!(log.lock().unwrap().is_empty());
    hooks.register(Box::new(Listener { name: 7, log: log.clone() }));
    assert_eq!(hooks.on_deliver(&[1], &[2, 3]), 1);
    assert_eq!(*log.lock().unwrap(), vec![(7, vec![1], vec![2, 3])]);
    hooks.register(Box::new(Listener { name: 8, log: log.clone() }));
    log.lock().unwrap().clear();
    assert_eq!(hooks.on_deliver(&[4; 64], &[5]), 2);
    assert_eq!(*log.lock().unwrap(), vec![(7, vec![4; 64], vec![5]), (8, vec![4; 64], vec![5])]);
    assert_eq!(HookRegistry::default().on_deliver(&[1], &[2]), 0);
}
