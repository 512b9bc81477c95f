//! Requests to register a relay, or to take it out.
//!
//! A request names what is to be done, the relay, and the channel that the
//! relay is for. A shorter form leaves out what is to be done, which the
//! destination that it was sent to then says.
use vstd::prelude::*;
use vstd::utf8::*;
use crate::config::NodeConfig;
use crate::destinations::CHANNEL_HASH_LEN;
use crate::digest::{destination_hash, destination_hash_of, texts};
use crate::fields::array;
use crate::lxmf_propagation::node::{DELIVERY_ASPECT, LXMF_APP};
use crate::msgpack::{msgpack_read, packed_items, read_value, Decoded, Packed};
use crate::notify::rns::{relay_hash_of, relay_of, remember_self_hosted_relay, wake_name_of};
use crate::notify::{
    is_relay_hash, not_of_subscriber, other_registration, registered, validate_relay_hash, NotifyRegistry,
    Registration,
};
use crate::octets::{copied, opt_view};
use crate::text::{hex, hex_text, string_from_utf8};

verus! {

/// What a request asks for.
#[derive(Clone, Copy, Debug, PartialEq, Eq, Structural)]
pub enum NotifyCommandKind {
    Register,
    Unregister,
    Clear,
}

impl NotifyCommandKind {
    /// The name of the kind.
    pub open spec fn spec_name(self) -> Seq<char> {
        match self {
            NotifyCommandKind::Register => "Register"@,
            NotifyCommandKind::Unregister => "Unregister"@,
            NotifyCommandKind::Clear => "Clear"@,
        }
    }

    fn name(self) -> (r: &'static str)
        ensures
            r@ == self.spec_name(),
    {
        match self {
            NotifyCommandKind::Register => "Register",
            NotifyCommandKind::Unregister => "Unregister",
            NotifyCommandKind::Clear => "Clear",
        }
    }
}

/// The kind that a request names.
pub open spec fn kind_of(op: Seq<char>) -> Option<NotifyCommandKind> {
    if op == "register"@ {
        Some(NotifyCommandKind::Register)
    } else if op == "unregister"@ {
        Some(NotifyCommandKind::Unregister)
    } else if op == "clear"@ {
        Some(NotifyCommandKind::Clear)
    } else {
        None
    }
}

/// The kind that a request names, as [`kind_of`] says.
fn named_kind(op: &String) -> (r: Option<NotifyCommandKind>)
    ensures
        r == kind_of(op@),
{
    if *op == "register".to_owned() {
        Some(NotifyCommandKind::Register)
    } else if *op == "unregister".to_owned() {
        Some(NotifyCommandKind::Unregister)
    } else if *op == "clear".to_owned() {
        Some(NotifyCommandKind::Clear)
    } else {
        None
    }
}

/// A request.
pub struct NotifyCommand {
    pub kind: NotifyCommandKind,
    pub relay_hash: Option<String>,
    pub channel_hash: Option<Vec<u8>>,
}

/// What a [`NotifyCommand`] holds.
pub struct Command {
    pub kind: NotifyCommandKind,
    pub relay: Option<Seq<char>>,
    pub channel: Option<Seq<u8>>,
}

/// The contents of a text that may be absent.
pub open spec fn opt_string(s: Option<String>) -> Option<Seq<char>> {
    match s {
        Some(t) => Some(t@),
        None => None,
    }
}

impl View for NotifyCommand {
    type V = Command;

    open spec fn view(&self) -> Command {
        Command { kind: self.kind, relay: opt_string(self.relay_hash), channel: opt_view(self.channel_hash) }
    }
}

/// The text of a value where it is one, and an empty text otherwise.
pub open spec fn text_of(p: Packed) -> Seq<char> {
    match p {
        Packed::Str(s) => s,
        _ => Seq::empty(),
    }
}

/// Whether a value is a text, be it valid or not.
pub open spec fn is_text(p: Packed) -> bool {
    p is Str || p is RawStr
}

/// The channel that a value names: a byte string of the length of a channel
/// hash.
pub open spec fn channel_in(p: Packed) -> Option<Seq<u8>> {
    match p {
        Packed::Binary(b) => if b.len() == CHANNEL_HASH_LEN {
            Some(b)
        } else {
            None
        },
        _ => None,
    }
}

/// A text, unless it is empty.
pub open spec fn unless_empty(s: Seq<char>) -> Option<Seq<char>> {
    if s.len() == 0 {
        None
    } else {
        Some(s)
    }
}

/// The text that bytes encode, and an empty one where they encode none.
pub open spec fn text_in(bytes: Seq<u8>) -> Seq<char> {
    if valid_utf8(bytes) {
        decode_utf8(bytes)
    } else {
        Seq::empty()
    }
}

/// The relay and the channel of the shorter form: an array of both, or else
/// the bytes themselves are the text of the relay.
pub open spec fn legacy_value(bytes: Seq<u8>, read: Option<Packed>) -> (Seq<char>, Option<Seq<u8>>) {
    match read {
        Some(Packed::Array(items)) => if items.len() >= 2 {
            (text_of(items[0]), channel_in(items[1]))
        } else {
            (text_in(bytes), None)
        },
        _ => (text_in(bytes), None),
    }
}

/// The text of the error for a kind that does not fit the destination.
pub open spec fn mismatch_text(named: NotifyCommandKind, expected: NotifyCommandKind) -> Seq<char> {
    "notify op mismatch: payload="@ + named.spec_name() + " handler="@ + expected.spec_name()
}

/// The request that an array of at least three with a text in front makes.
pub open spec fn long_form(items: Seq<Packed>, default_kind: Option<NotifyCommandKind>) -> Result<Command, Seq<char>> {
    match kind_of(text_of(items[0])) {
        None => Err("unknown notify op '"@ + text_of(items[0]) + "'"@),
        Some(kind) => if default_kind is Some && default_kind != Some(kind) {
            Err(mismatch_text(kind, default_kind->0))
        } else {
            Ok(Command { kind, relay: unless_empty(text_of(items[1])), channel: channel_in(items[2]) })
        },
    }
}

/// The request that bytes make, sent to a destination for requests of a kind
/// or for all of them.
pub open spec fn command_of(bytes: Seq<u8>, read: Option<Packed>, default_kind: Option<NotifyCommandKind>) -> Result<
    Command,
    Seq<char>,
> {
    if default_kind == Some(NotifyCommandKind::Clear) && bytes.len() == 0 {
        Ok(Command { kind: NotifyCommandKind::Clear, relay: None, channel: None })
    } else if read matches Some(Packed::Array(items)) && items.len() >= 3 && is_text(items[0]) {
        long_form(read->0->Array_0, default_kind)
    } else {
        match default_kind {
            None => Err("notify DATA payload missing op"@),
            Some(kind) => {
                let (relay, channel) = legacy_value(bytes, read);
                Ok(Command { kind, relay: unless_empty(relay), channel })
            },
        }
    }
}

/// The contents of a request or of the reason against it.
pub open spec fn command_views(r: Result<NotifyCommand, String>) -> Result<Command, Seq<char>> {
    match r {
        Ok(c) => Ok(c@),
        Err(e) => Err(e@),
    }
}

/// What was read of some bytes.
pub open spec fn read_view(v: Option<&Decoded>) -> Option<Packed> {
    match v {
        Some(d) => Some(d@),
        None => None,
    }
}

fn item_text(v: &Decoded) -> (r: String)
    ensures
        r@ == text_of(v@),
{
    match v {
        Decoded::Str(s) => s.as_str().to_owned(),
        _ => {
            let empty: String = String::new();
            assert(empty@ =~= Seq::empty());
            empty
        },
    }
}

fn item_channel(v: &Decoded) -> (r: Option<Vec<u8>>)
    ensures
        opt_view(r) == channel_in(v@),
{
    match v {
        Decoded::Binary(b) => {
            if b.len() == CHANNEL_HASH_LEN {
                Some(copied(b.as_slice()))
            } else {
                None
            }
        },
        _ => None,
    }
}

fn some_text(s: String) -> (r: Option<String>)
    ensures
        opt_string(r) == unless_empty(s@),
{
    if s.as_str().unicode_len() == 0 {
        None
    } else {
        Some(s)
    }
}

/// The relay and the channel of the shorter form, as [`legacy_value`] says.
pub fn parse_notify_legacy_value(value_bytes: &[u8], read: Option<&Decoded>) -> (r: (String, Option<Vec<u8>>))
    ensures
        (r.0@, opt_view(r.1)) == legacy_value(value_bytes@, read_view(read)),
{
    if let Some(v) = read {
        if let Some(items) = array(v) {
            if items.len() >= 2 {
                assert(packed_items(items@)[0] == items@[0]@ && packed_items(items@)[1] == items@[1]@);
                return (item_text(&items[0]), item_channel(&items[1]));
            }
        }
    }
    let text: String = match string_from_utf8(copied(value_bytes)) {
        Some(s) => s,
        None => String::new(),
    };
    assert(text@ =~= text_in(value_bytes@));
    (text, None)
}

/// The request that bytes make once they were decoded, as [`command_of`] says.
pub fn notify_command(value_bytes: &[u8], read: Option<&Decoded>, default_kind: Option<NotifyCommandKind>) -> (r: Result<
    NotifyCommand,
    String,
>)
    ensures
        command_views(r) == command_of(value_bytes@, read_view(read), default_kind),
{
    if value_bytes.len() == 0 {
        if let Some(NotifyCommandKind::Clear) = default_kind {
            return Ok(NotifyCommand { kind: NotifyCommandKind::Clear, relay_hash: None, channel_hash: None });
        }
    }
    if let Some(v) = read {
        if let Some(items) = array(v) {
            if items.len() >= 3 {
                let ghost all = packed_items(items@);
                assert(all[0] == items@[0]@ && all[1] == items@[1]@ && all[2] == items@[2]@);
                if matches!(items[0], Decoded::Str(_)) || matches!(items[0], Decoded::RawStr(_)) {
                    let op: String = item_text(&items[0]);
                    let kind: NotifyCommandKind = match named_kind(&op) {
                        Some(k) => k,
                        None => {
                            let head: String = "unknown notify op '".to_owned();
                            return Err(head.concat(op.as_str()).concat("'"));
                        },
                    };
                    if let Some(expected) = default_kind {
                        if expected != kind {
                            let head: String = "notify op mismatch: payload=".to_owned();
                            return Err(head.concat(kind.name()).concat(" handler=").concat(expected.name()));
                        }
                    }
                    return Ok(
                        NotifyCommand {
                            kind,
                            relay_hash: some_text(item_text(&items[1])),
                            channel_hash: item_channel(&items[2]),
                        },
                    );
                }
            }
        }
    }
    match default_kind {
        None => Err("notify DATA payload missing op".to_owned()),
        Some(kind) => {
            let (relay, channel_hash) = parse_notify_legacy_value(value_bytes, read);
            Ok(NotifyCommand { kind, relay_hash: some_text(relay), channel_hash })
        },
    }
}

/// The request that bytes make, as [`command_of`] says.
pub fn parse_notify_command(value_bytes: &[u8], default_kind: Option<NotifyCommandKind>) -> (r: Result<
    NotifyCommand,
    String,
>)
    ensures
        command_views(r) == command_of(value_bytes@, msgpack_read(value_bytes@), default_kind),
{
    match read_value(value_bytes) {
        Some(v) => notify_command(value_bytes, Some(&v), default_kind),
        None => notify_command(value_bytes, None, default_kind),
    }
}

/// The hash under which a relay is found: that of the subscriber where it is
/// for a channel, and otherwise the one under which the subscriber's messages
/// come in.
pub open spec fn notify_key(subscriber: Seq<u8>, channel: Option<Seq<u8>>) -> Seq<u8> {
    match channel {
        Some(_) => subscriber,
        None => destination_hash_of(subscriber, LXMF_APP@, seq![DELIVERY_ASPECT@]),
    }
}

fn message_key(subscriber_hash: &[u8]) -> (r: Vec<u8>)
    ensures
        r@ == notify_key(subscriber_hash@, None),
{
    let aspects: [&str; 1] = [DELIVERY_ASPECT];
    let hash: Vec<u8> = destination_hash(subscriber_hash, LXMF_APP, &aspects);
    assert(texts(aspects@) =~= seq![DELIVERY_ASPECT@]);
    hash
}

/// A relay that a registration names: a path to it is to be asked for.
pub struct NamedRelay {
    pub relay_hash: Vec<u8>,
    /// The subscriber's keys, where they are the relay's too and are to be
    /// remembered as such.
    pub key: Option<Vec<u8>>,
}

/// Whether this is the relay of a subscriber with these keys: they are the
/// relay's only where the subscriber hosts it.
pub open spec fn is_named_by(n: NamedRelay, relay: Seq<char>, subscriber: Seq<u8>, key: Seq<u8>) -> bool {
    &&& relay_of(relay) == Some(n.relay_hash@)
    &&& opt_view(n.key) == (if wake_name_of(subscriber, n.relay_hash@) is Some {
        Some(key)
    } else {
        None
    })
}

/// What a request comes to.
pub struct NotifyEnd {
    /// Whether it was carried out, or why not.
    pub result: Result<(), String>,
    /// The relay that was named.
    pub relay: Option<NamedRelay>,
}

/// Why a request is refused, where it is: a registration or its end needs a
/// relay, and a registration needs a valid one, the keys of the subscriber,
/// and a tier that may register.
pub open spec fn notify_refusal(config: NodeConfig, command: Command, subscriber: Seq<u8>, has_key: bool) -> Option<
    Seq<char>,
> {
    match command.kind {
        NotifyCommandKind::Register => match command.relay {
            None => Some("notify/register: empty relay hash"@),
            Some(relay) => if !is_relay_hash(relay) {
                Some(
                    "notify registration rejected: "@
                        + "relay hash must be a 32-char lowercase hex destination hash"@,
                )
            } else if !has_key {
                Some("notify/register: missing pubkey"@)
            } else if !config.spec_policy_for(subscriber).allow_notify_registration {
                Some("notify registration denied for "@ + hex_text(subscriber) + " (policy)"@)
            } else {
                None
            },
        },
        NotifyCommandKind::Unregister => if command.relay is None {
            Some("notify/unregister: empty relay hash"@)
        } else {
            None
        },
        NotifyCommandKind::Clear => None,
    }
}

/// The registrations after a request that is not refused. A relay that is for
/// no channel stands twice: under the hash of the subscriber, and under the one
/// by which alone a message names its recipient.
pub open spec fn after_command(regs: Seq<Registration>, command: Command, subscriber: Seq<u8>, now: u64) -> Seq<
    Registration,
> {
    let channel = command.channel;
    let relay = command.relay->0;
    let address = notify_key(subscriber, None);
    match command.kind {
        NotifyCommandKind::Register => {
            let first = registered(regs, Registration { subscriber, channel, relay, registered: now });
            match channel {
                Some(_) => first,
                None => registered(first, Registration { subscriber: address, channel, relay, registered: now }),
            }
        },
        NotifyCommandKind::Unregister => {
            let first = regs.filter(other_registration(subscriber, channel, relay));
            match channel {
                Some(_) => first,
                None => first.filter(other_registration(address, channel, relay)),
            }
        },
        NotifyCommandKind::Clear => regs.filter(not_of_subscriber(subscriber)).filter(not_of_subscriber(address)),
    }
}

/// Whether a request names a relay: a valid one in a registration that comes
/// with keys, whatever the tier.
pub open spec fn names_relay(command: Command, has_key: bool) -> bool {
    command.kind is Register && command.relay is Some && is_relay_hash(command.relay->0) && has_key
}

/// Carries a request out, unless it is refused.
pub fn handle_notify_command(
    registry: &mut NotifyRegistry,
    config: &NodeConfig,
    command: NotifyCommand,
    subscriber_hash: &[u8],
    pubkey: Option<Vec<u8>>,
    now: u64,
) -> (r: NotifyEnd)
    ensures
        match notify_refusal(*config, command@, subscriber_hash@, pubkey is Some) {
            Some(text) => (r.result matches Err(e) && e@ == text) && final(registry)@ == old(registry)@,
            None => r.result is Ok && final(registry)@ == after_command(
                old(registry)@,
                command@,
                subscriber_hash@,
                now,
            ),
        },
        r.relay is Some <==> names_relay(command@, pubkey is Some),
        r.relay matches Some(n) ==> is_named_by(n, command@.relay->0, subscriber_hash@, pubkey->0@),
{
    match command.kind {
        NotifyCommandKind::Register => {
            let relay: String = match command.relay_hash {
                Some(h) => h,
                None => {
                    return NotifyEnd { result: Err("notify/register: empty relay hash".to_owned()), relay: None };
                },
            };
            if let Err(reason) = validate_relay_hash(relay.as_str()) {
                let head: String = "notify registration rejected: ".to_owned();
                return NotifyEnd { result: Err(head.concat(reason.as_str())), relay: None };
            }
            let relay_bytes: Option<Vec<u8>> = relay_hash_of(relay.as_str());
            assert(relay_of(relay@) is Some) by {
                assert forall|i: int| 0 <= i < relay@.len() implies crate::text::hex_value(
                    #[trigger] relay@[i],
                ) is Some by {
                    assert(crate::notify::is_lower_hex(relay@[i]));
                }
            }
            match (pubkey, relay_bytes) {
                (Some(pk), Some(bytes)) => {
                    let hosted: bool = remember_self_hosted_relay(bytes.as_slice(), Some(subscriber_hash));
                    let named: Option<NamedRelay> = Some(
                        NamedRelay {
                            relay_hash: bytes,
                            key: if hosted {
                                Some(pk)
                            } else {
                                None
                            },
                        },
                    );
                    if !config.policy_for(subscriber_hash).allow_notify_registration {
                        let head: String = "notify registration denied for ".to_owned();
                        let text: String = head.concat(hex(subscriber_hash).as_str()).concat(" (policy)");
                        return NotifyEnd { result: Err(text), relay: named };
                    }
                    match command.channel_hash {
                        Some(c) => {
                            registry.register_for_channel(copied(subscriber_hash), Some(c), relay, now);
                        },
                        None => {
                            let same: String = relay.as_str().to_owned();
                            registry.register_for_channel(copied(subscriber_hash), None, same, now);
                            registry.register_for_channel(message_key(subscriber_hash), None, relay, now);
                        },
                    }
                    NotifyEnd { result: Ok(()), relay: named }
                },
                _ => NotifyEnd { result: Err("notify/register: missing pubkey".to_owned()), relay: None },
            }
        },
        NotifyCommandKind::Unregister => {
            let relay: String = match command.relay_hash {
                Some(h) => h,
                None => {
                    return NotifyEnd { result: Err("notify/unregister: empty relay hash".to_owned()), relay: None };
                },
            };
            match &command.channel_hash {
                Some(c) => {
                    registry.unregister_for_channel(subscriber_hash, Some(c.as_slice()), relay.as_str());
                },
                None => {
                    let address: Vec<u8> = message_key(subscriber_hash);
                    registry.unregister_for_channel(subscriber_hash, None, relay.as_str());
                    registry.unregister_for_channel(address.as_slice(), None, relay.as_str());
                },
            }
            NotifyEnd { result: Ok(()), relay: None }
        },
        NotifyCommandKind::Clear => {
            let address: Vec<u8> = message_key(subscriber_hash);
            registry.clear(subscriber_hash);
            registry.clear(address.as_slice());
            NotifyEnd { result: Ok(()), relay: None }
        },
    }
}

/// Whether a relay is found under a hash for a channel, or for none.
pub open spec fn is_found(regs: Seq<Registration>, key: Seq<u8>, channel: Option<Seq<u8>>, relay: Seq<char>) -> bool {
    exists|r: Registration| #[trigger]
        regs.filter(crate::notify::of_channel(key, channel)).contains(r) && r.relay == relay
}

/// A relay that is found is still found once another, or the same, was
/// registered.
proof fn lemma_registering_keeps(
    regs: Seq<Registration>,
    new: Registration,
    key: Seq<u8>,
    channel: Option<Seq<u8>>,
    relay: Seq<char>,
)
    requires
        is_found(regs, key, channel, relay),
    ensures
        is_found(registered(regs, new), key, channel, relay),
{
    let test = crate::notify::of_channel(key, channel);
    crate::octets::lemma_filter_holds(regs, test);
    let r = choose|r: Registration| #[trigger] regs.filter(test).contains(r) && r.relay == relay;
    assert(regs.contains(r));
    let k = regs.index_of(r);
    lemma_stays_in_place(regs, new, k);
    let all = registered(regs, new);
    crate::octets::lemma_filter_holds(all, test);
    let kept = all[k];
    assert(all.contains(kept));
    assert(all.filter(test).contains(kept));
}

/// A registration stays in its place once one more is made, and only its time
/// can change.
proof fn lemma_stays_in_place(regs: Seq<Registration>, new: Registration, k: int)
    requires
        0 <= k < regs.len(),
    ensures
        k < registered(regs, new).len(),
        registered(regs, new)[k].subscriber == regs[k].subscriber,
        registered(regs, new)[k].channel == regs[k].channel,
        registered(regs, new)[k].relay == regs[k].relay,
    decreases regs.len(),
{
    if !crate::notify::same_registration(new.subscriber, new.channel, new.relay)(regs[0]) && k > 0 {
        lemma_stays_in_place(regs.skip(1), new, k - 1);
    }
}

/// A relay that was registered is woken for the channel it was registered for,
/// and no longer once its end was asked for. One that was registered for no
/// channel is found both under the hash of the subscriber and under the one by
/// which messages come in, and afterwards under neither.
pub proof fn law_registered_relay_is_woken_until_its_end(
    regs: Seq<Registration>,
    relay: Seq<char>,
    channel: Option<Seq<u8>>,
    subscriber: Seq<u8>,
    now: u64,
)
    ensures
        ({
            let on = after_command(
                regs,
                Command { kind: NotifyCommandKind::Register, relay: Some(relay), channel },
                subscriber,
                now,
            );
            let off = after_command(
                on,
                Command { kind: NotifyCommandKind::Unregister, relay: Some(relay), channel },
                subscriber,
                now,
            );
            &&& is_found(on, subscriber, channel, relay)
            &&& is_found(on, notify_key(subscriber, channel), channel, relay)
            &&& !is_found(off, subscriber, channel, relay)
            &&& !is_found(off, notify_key(subscriber, channel), channel, relay)
        }),
{
    let address = notify_key(subscriber, None);
    let new = Registration { subscriber, channel, relay, registered: now };
    crate::notify::law_registered_relay_is_found(regs, new);
    let first = registered(regs, new);
    assert(is_found(first, subscriber, channel, relay));
    let second = Registration { subscriber: address, channel, relay, registered: now };
    crate::notify::law_registered_relay_is_found(first, second);
    lemma_registering_keeps(first, second, subscriber, channel, relay);
    assert(is_found(registered(first, second), address, channel, relay));
    let register = Command { kind: NotifyCommandKind::Register, relay: Some(relay), channel };
    let unregister = Command { kind: NotifyCommandKind::Unregister, relay: Some(relay), channel };
    let on = after_command(regs, register, subscriber, now);
    let off = after_command(on, unregister, subscriber, now);
    let once = on.filter(other_registration(subscriber, channel, relay));
    crate::octets::lemma_filter_holds(on, other_registration(subscriber, channel, relay));
    crate::octets::lemma_filter_holds(once, other_registration(address, channel, relay));
    crate::octets::lemma_filter_holds(off, crate::notify::of_channel(subscriber, channel));
    crate::octets::lemma_filter_holds(off, crate::notify::of_channel(notify_key(subscriber, channel), channel));
}

/// A registration for no channel on an empty registry leaves two: one under
/// the hash of the subscriber, and one under the hash by which the subscriber's
/// messages come in.
pub proof fn law_relay_for_no_channel_stands_twice(relay: Seq<char>, subscriber: Seq<u8>, now: u64)
    requires
        notify_key(subscriber, None) != subscriber,
    ensures
        after_command(
            Seq::empty(),
            Command { kind: NotifyCommandKind::Register, relay: Some(relay), channel: None },
            subscriber,
            now,
        ) == seq![
            Registration { subscriber, channel: None, relay, registered: now },
            Registration { subscriber: notify_key(subscriber, None), channel: None, relay, registered: now },
        ],
{
    let a = Registration { subscriber, channel: None, relay, registered: now };
    let b = Registration { subscriber: notify_key(subscriber, None), channel: None, relay, registered: now };
    let first = registered(Seq::empty(), a);
    assert(first =~= seq![a]);
    assert(first.skip(1) =~= Seq::empty());
    assert(registered(first.skip(1), b) =~= seq![b]);
    assert(registered(first, b) =~= seq![a, b]);
}

/// Once a subscriber has cleared its relays, none is registered for it any
/// more, neither for a channel nor for its messages, and nobody else has lost
/// one.
pub proof fn law_clear_ends_every_relay(regs: Seq<Registration>, subscriber: Seq<u8>, now: u64, r: Registration)
    ensures
        after_command(
            regs,
            Command { kind: NotifyCommandKind::Clear, relay: None, channel: None },
            subscriber,
            now,
        ).contains(r) <==> regs.contains(r) && r.subscriber != subscriber && r.subscriber != notify_key(
            subscriber,
            None,
        ),
{
    let once = regs.filter(not_of_subscriber(subscriber));
    crate::octets::lemma_filter_holds(regs, not_of_subscriber(subscriber));
    crate::octets::lemma_filter_holds(once, not_of_subscriber(notify_key(subscriber, None)));
}

/// A command changes nothing for anybody but its subscriber: what is registered
/// under other hashes stays as it is.
pub proof fn law_commands_leave_others_alone(
    regs: Seq<Registration>,
    command: Command,
    subscriber: Seq<u8>,
    now: u64,
    r: Registration,
)
    requires
        r.subscriber != subscriber,
        r.subscriber != notify_key(subscriber, None),
    ensures
        after_command(regs, command, subscriber, now).contains(r) <==> regs.contains(r),
{
    let channel = command.channel;
    let relay = command.relay->0;
    let address = notify_key(subscriber, None);
    let own = Registration { subscriber, channel, relay, registered: now };
    let addressed = Registration { subscriber: address, channel, relay, registered: now };
    lemma_registering_keeps_others(regs, own, r);
    lemma_registering_keeps_others(registered(regs, own), addressed, r);
    let first = regs.filter(other_registration(subscriber, channel, relay));
    crate::octets::lemma_filter_holds(regs, other_registration(subscriber, channel, relay));
    crate::octets::lemma_filter_holds(first, other_registration(address, channel, relay));
    law_clear_ends_every_relay(regs, subscriber, now, r);
}

proof fn lemma_registering_keeps_others(regs: Seq<Registration>, new: Registration, r: Registration)
    requires
        r.subscriber != new.subscriber,
    ensures
        registered(regs, new).contains(r) <==> regs.contains(r),
    decreases regs.len(),
{
    if regs.len() > 0 {
        let rest = regs.skip(1);
        let after = registered(regs, new);
        lemma_registering_keeps_others(rest, new, r);
        assert(regs =~= seq![regs[0]] + rest);
        let tail = if crate::notify::same_registration(new.subscriber, new.channel, new.relay)(regs[0]) {
            rest
        } else {
            registered(rest, new)
        };
        assert(after =~= seq![after[0]] + tail);
        if after.contains(r) {
            let i = after.index_of(r);
            if i > 0 {
                assert(tail[i - 1] == r);
                assert(tail.contains(r));
                assert(rest.contains(r));
                assert(regs[rest.index_of(r) + 1] == r);
            } else {
                assert(regs[0] == r);
            }
        }
        if regs.contains(r) {
            let i = regs.index_of(r);
            if i > 0 {
                assert(rest[i - 1] == r);
                assert(rest.contains(r));
                assert(tail.contains(r));
                assert(after[tail.index_of(r) + 1] == r);
            } else {
                assert(after[0] == r);
            }
        }
    } else {
        assert(registered(regs, new) =~= seq![new]);
    }
}

/// The end of a registration ends that of the relay for the channel that was
/// named, and leaves those of other relays and for other channels.
pub proof fn law_end_is_of_one_relay(
    regs: Seq<Registration>,
    relay: Seq<char>,
    channel: Option<Seq<u8>>,
    subscriber: Seq<u8>,
    now: u64,
    r: Registration,
)
    ensures
        after_command(
            regs,
            Command { kind: NotifyCommandKind::Unregister, relay: Some(relay), channel },
            subscriber,
            now,
        ).contains(r) <==> regs.contains(r) && !(r.relay == relay && r.channel == channel && (r.subscriber == subscriber
            || (channel is None && r.subscriber == notify_key(subscriber, None)))),
{
    let address = notify_key(subscriber, None);
    let first = regs.filter(other_registration(subscriber, channel, relay));
    crate::octets::lemma_filter_holds(regs, other_registration(subscriber, channel, relay));
    crate::octets::lemma_filter_holds(first, other_registration(address, channel, relay));
}

/// A relay is registered exactly where its hash is 32 lowercase hex digits, the
/// key of the subscriber is known, and the tier of the subscriber may register.
/// The end of one asks for a relay, and the end of all for nothing.
pub proof fn law_which_commands_are_carried_out(
    config: NodeConfig,
    command: Command,
    subscriber: Seq<u8>,
    has_key: bool,
    vip: bool,
)
    requires
        vip <==> exists|i: int|
            0 <= i < config.vip_subscribers@.len() && (#[trigger] config.vip_subscribers@[i])@ == subscriber,
    ensures
        command.kind is Register ==> (notify_refusal(config, command, subscriber, has_key) is None <==> (
        command.relay matches Some(t) && t.len() == 32 && forall|i: int|
            0 <= i < t.len() ==> ('0' <= #[trigger] t[i] <= '9' || 'a' <= t[i] <= 'f')) && has_key && if vip {
            config.vip_policy.allow_notify_registration
        } else {
            config.default_policy.allow_notify_registration
        }),
        command.kind is Unregister ==> (notify_refusal(config, command, subscriber, has_key) is None
            <==> command.relay is Some),
        command.kind is Clear ==> notify_refusal(config, command, subscriber, has_key) is None,
{
    crate::config::law_tier_of(config, subscriber, vip);
    if let Some(t) = command.relay {
        assert forall|i: int| 0 <= i < t.len() implies (crate::notify::is_lower_hex(#[trigger] t[i]) <==> ('0' <= t[i] <= '9' || 'a'
            <= t[i] <= 'f')) by {}
        if is_relay_hash(t) {
            assert forall|i: int| 0 <= i < t.len() implies ('0' <= #[trigger] t[i] <= '9' || 'a' <= t[i] <= 'f') by {
                assert(crate::notify::is_lower_hex(t[i]));
            }
        }
    }
}

/// A command that names what it does, the relay and the channel is understood
/// so, whatever handler it came to; one that a handler of another kind gets is
/// refused.
pub proof fn law_named_command_is_understood(
    bytes: Seq<u8>,
    kind: NotifyCommandKind,
    other: NotifyCommandKind,
    relay: Seq<char>,
    channel: Seq<u8>,
)
    requires
        bytes.len() > 0,
        relay.len() > 0,
        channel.len() == 16,
        other != kind,
    ensures
        ({
            let name = match kind {
                NotifyCommandKind::Register => "register"@,
                NotifyCommandKind::Unregister => "unregister"@,
                NotifyCommandKind::Clear => "clear"@,
            };
            let read = Some(Packed::Array(seq![Packed::Str(name), Packed::Str(relay), Packed::Binary(channel)]));
            let command = Command { kind, relay: Some(relay), channel: Some(channel) };
            &&& command_of(bytes, read, None) == Ok::<Command, Seq<char>>(command)
            &&& command_of(bytes, read, Some(kind)) == Ok::<Command, Seq<char>>(command)
            &&& command_of(bytes, read, Some(other)) is Err
        }),
{
    reveal_strlit("register");
    reveal_strlit("unregister");
    reveal_strlit("clear");
    assert("register"@.len() != "unregister"@.len());
    assert("register"@.len() != "clear"@.len());
    assert("unregister"@.len() != "clear"@.len());
}

/// A shorter command, a relay and a channel, does what its handler does. Bytes
/// that are no array of two are the relay themselves, where they are a text.
pub proof fn law_short_command_is_understood(
    bytes: Seq<u8>,
    kind: NotifyCommandKind,
    relay: Seq<char>,
    channel: Seq<u8>,
)
    requires
        bytes.len() > 0,
        relay.len() > 0,
        channel.len() == 16,
    ensures
        ({
            let read = Some(Packed::Array(seq![Packed::Str(relay), Packed::Binary(channel)]));
            &&& command_of(bytes, read, Some(kind)) == Ok::<Command, Seq<char>>(
                Command { kind, relay: Some(relay), channel: Some(channel) },
            )
            &&& command_of(bytes, read, None) is Err
            &&& valid_utf8(bytes) ==> command_of(bytes, None, Some(kind)) == Ok::<Command, Seq<char>>(
                Command {
                    kind,
                    relay: if decode_utf8(bytes).len() > 0 {
                        Some(decode_utf8(bytes))
                    } else {
                        None
                    },
                    channel: None,
                },
            )
            &&& command_of(Seq::empty(), None, Some(NotifyCommandKind::Clear)) == Ok::<Command, Seq<char>>(
                Command { kind: NotifyCommandKind::Clear, relay: None, channel: None },
            )
        }),
{
}

/// The key of a subscriber is looked at for a relay only where the command
/// registers one by a hash of 32 lowercase hex digits and the key is known.
pub proof fn law_which_commands_name_a_relay(command: Command, has_key: bool)
    ensures
        names_relay(command, has_key) <==> has_key && command.kind is Register && (command.relay matches Some(t)
            && t.len() == 32 && forall|i: int|
            0 <= i < t.len() ==> ('0' <= #[trigger] t[i] <= '9' || 'a' <= t[i] <= 'f')),
{
    if let Some(t) = command.relay {
        assert forall|i: int| 0 <= i < t.len() implies (crate::notify::is_lower_hex(#[trigger] t[i]) <==> ('0' <= t[i]
            <= '9' || 'a' <= t[i] <= 'f')) by {}
        if is_relay_hash(t) {
            assert forall|i: int| 0 <= i < t.len() implies ('0' <= #[trigger] t[i] <= '9' || 'a' <= t[i] <= 'f') by {
                assert(crate::notify::is_lower_hex(t[i]));
            }
        }
    }
}

/// A channel that is no hash of 16 bytes, and a relay without any letters, count
/// as none at all.
pub proof fn law_what_counts_as_none(bytes: Seq<u8>, kind: NotifyCommandKind, relay: Packed, channel: Packed)
    requires
        bytes.len() > 0,
    ensures
        ({
            let read = Some(Packed::Array(seq![relay, channel]));
            let r = command_of(bytes, read, Some(kind));
            &&& r is Ok
            &&& r->Ok_0.kind == kind
            &&& r->Ok_0.channel is Some <==> channel is Binary && channel->Binary_0.len() == 16
            &&& r->Ok_0.channel matches Some(c) ==> c == channel->Binary_0
            &&& r->Ok_0.relay is Some <==> relay is Str && relay->Str_0.len() > 0
            &&& r->Ok_0.relay matches Some(t) ==> t == relay->Str_0
        }),
{
}

/// A command that is carried out changes what is registered for its subscriber
/// alone, and one that is refused changes nothing.
pub proof fn law_command_concerns_its_subscriber(
    registry: &mut NotifyRegistry,
    config: &NodeConfig,
    command: NotifyCommand,
    subscriber: &[u8],
    pubkey: Option<Vec<u8>>,
    now: u64,
    r: NotifyEnd,
    x: Registration,
)
    requires
        call_ensures(handle_notify_command, (registry, config, command, subscriber, pubkey, now), r),
    ensures
        r.result is Err ==> final(registry)@ == old(registry)@,
        x.subscriber != subscriber@ && x.subscriber != notify_key(subscriber@, None) ==> (final(registry)@.contains(x)
            <==> old(registry)@.contains(x)),
        r.result is Ok && command@.kind is Clear ==> (final(registry)@.contains(x) ==> x.subscriber != subscriber@),
        command@.kind is Clear ==> r.result is Ok,
        command@.kind is Register && pubkey is None ==> r.result is Err,
        r.result is Ok && command@.kind is Register ==> is_found(
            final(registry)@,
            subscriber@,
            command@.channel,
            command@.relay->0,
        ),
        r.result is Ok && command@.kind is Unregister ==> !is_found(
            final(registry)@,
            subscriber@,
            command@.channel,
            command@.relay->0,
        ),
{
    let c = command@;
    if r.result is Ok {
        if x.subscriber != subscriber@ && x.subscriber != notify_key(subscriber@, None) {
            law_commands_leave_others_alone(old(registry)@, c, subscriber@, now, x);
        }
        if c.kind is Clear {
            law_clear_ends_every_relay(old(registry)@, subscriber@, now, x);
        }
        if c.kind is Register {
            law_registered_relay_is_woken_until_its_end(old(registry)@, c.relay->0, c.channel, subscriber@, now);
        }
        if c.kind is Unregister {
            let test = crate::notify::of_channel(subscriber@, c.channel);
            crate::octets::lemma_filter_holds(final(registry)@, test);
            if is_found(final(registry)@, subscriber@, c.channel, c.relay->0) {
                let y = choose|y: Registration| #[trigger]
                    final(registry)@.filter(test).contains(y) && y.relay == c.relay->0;
                law_end_is_of_one_relay(old(registry)@, c.relay->0, c.channel, subscriber@, now, y);
            }
        }
    }
}

} // verus!
