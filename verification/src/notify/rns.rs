//! Wake-ups of notify relays.
use vstd::prelude::*;
use crate::digest::destination_hash;
use crate::msgpack::{write_value, Item};
use crate::notify::NotifyRegistration;
use crate::octets::{copied, opt_view, same_bytes};
use crate::text::{decode_hex, hex};

verus! {

/// Why a wake did not leave.
#[derive(Clone, Copy, Debug, PartialEq, Eq, Structural)]
pub enum WakeDrop {
    /// The registration does not name a relay.
    InvalidRelayHash,
    /// No path to the relay. A path was asked for.
    NoPath,
    /// A path, but no identity for the relay. A path was asked for.
    NoIdentity,
    /// The identity does not lead to the relay's hash under any relay name. A
    /// path was asked for.
    NoMatchingDestination,
    /// No interface took the packet.
    NotTransmitted,
}

/// How loud a log line is.
#[derive(Clone, Copy, Debug, PartialEq, Eq, Structural)]
pub enum LogLevel {
    Warning,
    Notice,
    Debug,
}

impl WakeDrop {
    /// The level at which the drop is logged: routing drops as notices, the
    /// rest as warnings.
    pub fn log_level(self) -> (r: LogLevel)
        ensures
            r == (if self is NoPath || self is NoIdentity {
                LogLevel::Notice
            } else {
                LogLevel::Warning
            }),
    {
        match self {
            WakeDrop::NoPath | WakeDrop::NoIdentity => LogLevel::Notice,
            WakeDrop::InvalidRelayHash | WakeDrop::NoMatchingDestination | WakeDrop::NotTransmitted => LogLevel::Warning,
        }
    }
}

/// A drop, with the line that the log gets for it. It is made with its line,
/// so no wake is dropped without one.
pub struct LoggedDrop {
    reason: WakeDrop,
    line: String,
}

/// The log line of a drop.
pub open spec fn drop_line(relay: Seq<char>, sub_hash: Seq<u8>, detail: Seq<char>) -> Seq<char> {
    "[notify/rns] wake NOT sent to relay="@ + relay + " for subscriber="@ + crate::text::hex_text(sub_hash) + ": "@
        + detail
}

impl LoggedDrop {
    /// Why the wake did not leave.
    pub closed spec fn spec_reason(&self) -> WakeDrop {
        self.reason
    }

    /// The log line.
    pub closed spec fn spec_line(&self) -> Seq<char> {
        self.line@
    }

    /// A drop and its log line.
    pub fn log(reason: WakeDrop, relay: &str, sub_hash: &[u8], detail: &str) -> (r: Self)
        ensures
            r.spec_reason() == reason,
            r.spec_line() == drop_line(relay@, sub_hash@, detail@),
    {
        let line: String = "[notify/rns] wake NOT sent to relay=".to_owned().concat(relay).concat(
            " for subscriber=",
        ).concat(hex(sub_hash).as_str()).concat(": ").concat(detail);
        LoggedDrop { reason, line }
    }

    /// Why the wake did not leave.
    pub fn reason(&self) -> (r: WakeDrop)
        ensures
            r == self.spec_reason(),
    {
        self.reason
    }

    /// The line that the log gets.
    pub fn line(&self) -> (r: &str)
        ensures
            r@ == self.spec_line(),
    {
        self.line.as_str()
    }
}

/// Where a wake went, or why it did not leave.
pub enum WakeOutcome {
    /// An interface took the packet, addressed to this hash.
    Sent(Vec<u8>),
    /// Nothing left.
    Dropped(LoggedDrop),
}

/// What became of a wake: the hash that it was addressed to, or why it did not
/// leave and what the log gets for that.
pub enum WakeResult {
    Sent(Seq<u8>),
    Dropped(WakeDrop, Seq<char>),
}

impl View for WakeOutcome {
    type V = WakeResult;

    open spec fn view(&self) -> WakeResult {
        match *self {
            WakeOutcome::Sent(h) => WakeResult::Sent(h@),
            WakeOutcome::Dropped(d) => WakeResult::Dropped(d.spec_reason(), d.spec_line()),
        }
    }
}

impl WakeOutcome {
    /// Whether the wake left.
    pub fn is_sent(&self) -> (r: bool)
        ensures
            r == (self@ is Sent),
    {
        matches!(self, WakeOutcome::Sent(_))
    }

    /// Why the wake did not leave, if it did not.
    pub fn drop_reason(&self) -> (r: Option<WakeDrop>)
        ensures
            r == (match self@ {
                WakeResult::Sent(_) => None,
                WakeResult::Dropped(d, _) => Some(d),
            }),
    {
        match self {
            WakeOutcome::Sent(_) => None,
            WakeOutcome::Dropped(d) => Some(d.reason()),
        }
    }
}

/// The names under which relays take wakes: an application and an aspect.
#[derive(Clone, Copy, Debug, PartialEq, Eq, Structural)]
pub enum RelayName {
    /// `apns.relay`
    ApnsRelay,
    /// `rfed.notify`
    RfedNotify,
}

impl RelayName {
    /// The application.
    pub open spec fn spec_app_name(self) -> Seq<char> {
        match self {
            RelayName::ApnsRelay => "apns"@,
            RelayName::RfedNotify => "rfed"@,
        }
    }

    /// The aspect.
    pub open spec fn spec_aspect(self) -> Seq<char> {
        match self {
            RelayName::ApnsRelay => "relay"@,
            RelayName::RfedNotify => "notify"@,
        }
    }

    /// The hash that an identity has under the name.
    pub open spec fn hash_of(self, identity_hash: Seq<u8>) -> Seq<u8> {
        crate::digest::destination_hash_of(identity_hash, self.spec_app_name(), seq![self.spec_aspect()])
    }

    /// The application.
    pub fn app_name(self) -> (r: &'static str)
        ensures
            r@ == self.spec_app_name(),
    {
        match self {
            RelayName::ApnsRelay => "apns",
            RelayName::RfedNotify => "rfed",
        }
    }

    /// The aspect.
    pub fn aspect(self) -> (r: &'static str)
        ensures
            r@ == self.spec_aspect(),
    {
        match self {
            RelayName::ApnsRelay => "relay",
            RelayName::RfedNotify => "notify",
        }
    }

    fn leads_to(self, identity_hash: &[u8], relay_hash: &[u8]) -> (r: bool)
        ensures
            r == (self.hash_of(identity_hash@) == relay_hash@),
    {
        let aspects: [&str; 1] = [self.aspect()];
        let hash: Vec<u8> = destination_hash(identity_hash, self.app_name(), aspects.as_slice());
        assert(crate::digest::texts(aspects@) =~= seq![self.spec_aspect()]);
        same_bytes(hash.as_slice(), relay_hash)
    }
}

/// The first name under which an identity has the relay's hash.
pub open spec fn wake_name_of(identity_hash: Seq<u8>, relay_hash: Seq<u8>) -> Option<RelayName> {
    if RelayName::ApnsRelay.hash_of(identity_hash) == relay_hash {
        Some(RelayName::ApnsRelay)
    } else if RelayName::RfedNotify.hash_of(identity_hash) == relay_hash {
        Some(RelayName::RfedNotify)
    } else {
        None
    }
}

/// A wake is addressed to exactly the hash that was registered, whatever
/// identity was recalled for it, and to an identity that has the hash under a
/// known name it is always addressed.
pub proof fn law_wake_is_addressed_to_the_relay(identity_hash: Seq<u8>, relay_hash: Seq<u8>)
    ensures
        wake_name_of(identity_hash, relay_hash) matches Some(name) ==> name.hash_of(identity_hash) == relay_hash,
        forall|name: RelayName| #[trigger] name.hash_of(identity_hash) == relay_hash ==> wake_name_of(
            identity_hash,
            relay_hash,
        ) is Some,
{
}

/// The name under which an identity has exactly the relay's hash. None means
/// that the identity is not the relay's, or the relay goes by another name.
pub fn relay_wake_destination(identity_hash: &[u8], relay_hash: &[u8]) -> (r: Option<RelayName>)
    ensures
        r == wake_name_of(identity_hash@, relay_hash@),
{
    if RelayName::ApnsRelay.leads_to(identity_hash, relay_hash) {
        Some(RelayName::ApnsRelay)
    } else if RelayName::RfedNotify.leads_to(identity_hash, relay_hash) {
        Some(RelayName::RfedNotify)
    } else {
        None
    }
}

/// Whether the key of a registrant is to be recorded as the relay's: only if
/// the registrant hosts the relay, so that its own identity has the relay's
/// hash. An identity that could not be made of the key hosts nothing.
pub fn remember_self_hosted_relay(relay_hash: &[u8], registrant_identity: Option<&[u8]>) -> (r: bool)
    ensures
        r == (registrant_identity is Some && wake_name_of(registrant_identity->0@, relay_hash@) is Some),
{
    match registrant_identity {
        Some(identity_hash) => relay_wake_destination(identity_hash, relay_hash).is_some(),
        None => false,
    }
}

/// The relay that a registration names, if it names one.
pub open spec fn relay_of(relay: Seq<char>) -> Option<Seq<u8>> {
    match crate::text::hex_bytes(relay) {
        Some(b) => if b.len() == 16 {
            Some(b)
        } else {
            None
        },
        None => None,
    }
}

/// The relay that a registration names, if it names one.
pub fn relay_hash_of(relay: &str) -> (r: Option<Vec<u8>>)
    ensures
        r is Some <==> relay_of(relay@) is Some,
        r matches Some(h) ==> relay_of(relay@) == Some(h@),
{
    match decode_hex(relay) {
        Some(h) => {
            if h.len() == 16 {
                Some(h)
            } else {
                None
            }
        },
        None => None,
    }
}

/// What a wake comes to before anything is sent: a drop, or the name under
/// which the relay is addressed.
pub open spec fn wake_plan(relay_hash: Seq<u8>, has_path: bool, identity_hash: Option<Seq<u8>>) -> Result<
    RelayName,
    WakeDrop,
> {
    if !has_path {
        Err(WakeDrop::NoPath)
    } else {
        match identity_hash {
            None => Err(WakeDrop::NoIdentity),
            Some(id) => match wake_name_of(id, relay_hash) {
                None => Err(WakeDrop::NoMatchingDestination),
                Some(name) => Ok(name),
            },
        }
    }
}

/// What a wake comes to before anything is sent. A path is asked for on each
/// of these drops.
pub fn plan_wake(relay_hash: &[u8], has_path: bool, identity_hash: Option<&[u8]>) -> (r: Result<RelayName, WakeDrop>)
    ensures
        r == wake_plan(relay_hash@, has_path, crate::notify::channel_view(identity_hash)),
{
    if !has_path {
        return Err(WakeDrop::NoPath);
    }
    match identity_hash {
        None => Err(WakeDrop::NoIdentity),
        Some(id) => match relay_wake_destination(id, relay_hash) {
            None => Err(WakeDrop::NoMatchingDestination),
            Some(name) => Ok(name),
        },
    }
}

/// What a wake needs of the running network.
pub trait RelayStack {
    /// Whether a path to the destination is known.
    fn has_path(&self, destination_hash: &[u8]) -> bool;

    /// Asks the network for a path to the destination.
    fn request_path(&self, destination_hash: &[u8]);

    /// The hash of the identity that announced the destination.
    fn recall(&self, destination_hash: &[u8]) -> Option<Vec<u8>>;

    /// Sends a packet to the destination that an identity has under a name.
    /// Says whether an interface took it.
    fn send(&self, identity_hash: &[u8], name: RelayName, payload: &[u8]) -> Result<bool, String>;
}

/// The detail of a drop for want of a matching name.
pub open spec fn no_match_detail(identity_hash: Seq<u8>) -> Seq<char> {
    "recalled identity "@ + crate::text::hex_text(identity_hash)
        + " derives this hash under none of apns.relay, rfed.notify, path request issued"@
}

fn no_match(identity_hash: &[u8]) -> (r: String)
    ensures
        r@ == no_match_detail(identity_hash@),
{
    "recalled identity ".to_owned().concat(hex(identity_hash).as_str()).concat(
        " derives this hash under none of apns.relay, rfed.notify, path request issued",
    )
}

/// A wake that did not leave, with the log line for it.
pub open spec fn dropped_wake(reason: WakeDrop, relay: Seq<char>, sub_hash: Seq<u8>, detail: Seq<char>) -> WakeResult {
    WakeResult::Dropped(reason, drop_line(relay, sub_hash, detail))
}

/// What a packet that was handed to the network for a relay comes to.
pub open spec fn sent_result(
    sent: Result<bool, String>,
    relay_hash: Seq<u8>,
    relay: Seq<char>,
    sub_hash: Seq<u8>,
) -> WakeResult {
    match sent {
        Ok(true) => WakeResult::Sent(relay_hash),
        Ok(false) => dropped_wake(WakeDrop::NotTransmitted, relay, sub_hash, "no interface took the packet"@),
        Err(e) => dropped_wake(WakeDrop::NotTransmitted, relay, sub_hash, "send failed: "@ + e@),
    }
}

/// What a packet that was sent to a relay comes to: delivered to the network
/// where an interface took it, and a drop otherwise.
pub fn conclude_wake(sent: Result<bool, String>, relay_hash: Vec<u8>, relay: &str, sub_hash: &[u8]) -> (r: WakeOutcome)
    ensures
        r@ == sent_result(sent, relay_hash@, relay@, sub_hash@),
{
    match sent {
        Ok(true) => WakeOutcome::Sent(relay_hash),
        Ok(false) => dropped(WakeDrop::NotTransmitted, relay, sub_hash, "no interface took the packet"),
        Err(e) => {
            let detail: String = "send failed: ".to_owned().concat(e.as_str());
            dropped(WakeDrop::NotTransmitted, relay, sub_hash, detail.as_str())
        },
    }
}

fn dropped(reason: WakeDrop, relay: &str, sub_hash: &[u8], detail: &str) -> (r: WakeOutcome)
    ensures
        r@ == dropped_wake(reason, relay@, sub_hash@, detail@),
{
    WakeOutcome::Dropped(LoggedDrop::log(reason, relay, sub_hash, detail))
}

/// Whether this is an answer of the network to whether a path is known.
pub open spec fn path_answer<S: RelayStack + ?Sized>(stack: &S, relay: Seq<u8>, known: bool) -> bool {
    exists|h: &[u8]| h@ == relay && #[trigger] call_ensures(S::has_path, (stack, h), known)
}

/// Whether the network was asked for a path.
pub open spec fn path_requested<S: RelayStack + ?Sized>(stack: &S, relay: Seq<u8>) -> bool {
    exists|h: &[u8]| h@ == relay && #[trigger] call_ensures(S::request_path, (stack, h), ())
}

/// Whether this is an answer of the network to who announced a destination.
pub open spec fn recall_answer<S: RelayStack + ?Sized>(stack: &S, relay: Seq<u8>, identity: Option<Seq<u8>>) -> bool {
    exists|h: &[u8], found: Option<Vec<u8>>|
        h@ == relay && opt_view(found) == identity && #[trigger] call_ensures(S::recall, (stack, h), found)
}

/// Whether this is what became of a packet that was handed to the network.
pub open spec fn send_answer<S: RelayStack + ?Sized>(
    stack: &S,
    identity: Seq<u8>,
    name: RelayName,
    payload: Seq<u8>,
    sent: Result<bool, String>,
) -> bool {
    exists|id: &[u8], bytes: &[u8]|
        id@ == identity && bytes@ == payload && #[trigger] call_ensures(S::send, (stack, id, name, bytes), sent)
}

/// The detail of a drop before anything is sent, given whose identity was
/// recalled.
pub open spec fn plan_detail(reason: WakeDrop, identity: Option<Seq<u8>>) -> Seq<char> {
    match (reason, identity) {
        (WakeDrop::NoPath, _) => "no path to relay, path request issued"@,
        (WakeDrop::NoIdentity, _) => "relay identity not known, path request issued"@,
        (_, Some(id)) => no_match_detail(id),
        _ => Seq::empty(),
    }
}

/// Whether the wake of a registration comes to `outcome` by what the network
/// answers: a registration that names no relay is dropped for that; a path is
/// asked for where the relay has none, where nobody is known to have announced
/// it, and where it is not the relay of who did; and the payload goes to the
/// relay otherwise.
pub open spec fn is_wake<S: RelayStack + ?Sized>(
    stack: &S,
    reg: NotifyRegistration,
    sender: Option<Seq<u8>>,
    channel: Option<Seq<u8>>,
    outcome: WakeResult,
) -> bool {
    let text = reg.relay_hash@;
    let sub_hash = reg.subscriber_hash@;
    match relay_of(text) {
        None => outcome == dropped_wake(WakeDrop::InvalidRelayHash, text, sub_hash, "invalid relay hash"@),
        Some(relay) => {
            ||| {
                &&& path_answer(stack, relay, false)
                &&& path_requested(stack, relay)
                &&& outcome == dropped_wake(WakeDrop::NoPath, text, sub_hash, plan_detail(WakeDrop::NoPath, None))
            }
            ||| path_answer(stack, relay, true) && exists|identity: Option<Seq<u8>>| #[trigger]
                recall_answer(stack, relay, identity) && match wake_plan(relay, true, identity) {
                    Err(reason) => path_requested(stack, relay) && outcome == dropped_wake(
                        reason,
                        text,
                        sub_hash,
                        plan_detail(reason, identity),
                    ),
                    Ok(name) => exists|sent: Result<bool, String>| #[trigger]
                        send_answer(
                            stack,
                            identity->0,
                            name,
                            wake_bytes(sub_hash, sender, channel),
                            sent,
                        ) && outcome == sent_result(sent, relay, text, sub_hash),
                }
        },
    }
}

/// Wakes the relay of a registration over the running network.
///
/// Whatever the network answers: a registration that names no relay is dropped
/// for that and nothing is asked of the network, and a registration that names
/// one is never dropped for it. A wake that left went to the relay that the
/// registration names.
pub fn dispatch<S: RelayStack + ?Sized>(
    stack: &S,
    reg: &NotifyRegistration,
    sender: Option<&[u8]>,
    channel: Option<&[u8]>,
) -> (r: WakeOutcome)
    ensures
        is_wake(stack, *reg, crate::notify::channel_view(sender), crate::notify::channel_view(channel), r@),
        relay_of(reg.relay_hash@) is None <==> (r@ matches WakeResult::Dropped(reason, _) && reason
            == WakeDrop::InvalidRelayHash),
        r@ matches WakeResult::Sent(to) ==> relay_of(reg.relay_hash@) == Some(to),
{
    let relay: &str = reg.relay_hash.as_str();
    let sub_hash: &[u8] = reg.subscriber_hash.as_slice();
    let relay_hash: Vec<u8> = match relay_hash_of(relay) {
        Some(h) => h,
        None => return dropped(WakeDrop::InvalidRelayHash, relay, sub_hash, "invalid relay hash"),
    };
    let h: &[u8] = relay_hash.as_slice();
    let has_path: bool = stack.has_path(h);
    assert(path_answer(stack, h@, has_path));
    let identity: Option<Vec<u8>> = if has_path {
        stack.recall(h)
    } else {
        None
    };
    assert(has_path ==> recall_answer(stack, h@, opt_view(identity)));
    let identity_hash: Option<&[u8]> = match &identity {
        Some(id) => Some(id.as_slice()),
        None => None,
    };
    match (plan_wake(h, has_path, identity_hash), identity_hash) {
        (Ok(name), Some(id)) => {
            let payload: Vec<u8> = encode_wake_payload(sub_hash, sender, channel);
            let sent: Result<bool, String> = stack.send(id, name, payload.as_slice());
            assert(send_answer(stack, id@, name, payload@, sent));
            conclude_wake(sent, relay_hash, relay, sub_hash)
        },
        (Err(reason), _) => {
            stack.request_path(h);
            assert(path_requested(stack, h@));
            let detail: String = match reason {
                WakeDrop::NoPath => "no path to relay, path request issued".to_owned(),
                WakeDrop::NoIdentity => "relay identity not known, path request issued".to_owned(),
                _ => match identity_hash {
                    Some(id) => no_match(id),
                    None => String::new(),
                },
            };
            dropped(reason, relay, sub_hash, detail.as_str())
        },
        (Ok(_), None) => dropped(WakeDrop::NoIdentity, relay, sub_hash, "relay identity not known"),
    }
}

/// The contents of a wake: who is woken, and where known who wrote and on
/// which channel.
pub open spec fn wake_entries(receiver: Seq<u8>, sender: Option<Seq<u8>>, channel: Option<Seq<u8>>) -> Seq<
    (crate::msgpack::Packed, crate::msgpack::Packed),
> {
    let first = seq![(crate::msgpack::Packed::Str("receiver"@), crate::msgpack::Packed::Binary(receiver))];
    let second = match sender {
        Some(s) => first.push((crate::msgpack::Packed::Str("sender"@), crate::msgpack::Packed::Binary(s))),
        None => first,
    };
    match channel {
        Some(c) => second.push((crate::msgpack::Packed::Str("channel"@), crate::msgpack::Packed::Binary(c))),
        None => second,
    }
}

/// The wire form of a wake.
pub open spec fn wake_bytes(receiver: Seq<u8>, sender: Option<Seq<u8>>, channel: Option<Seq<u8>>) -> Seq<u8> {
    crate::msgpack::msgpack_write(crate::msgpack::Packed::Table(wake_entries(receiver, sender, channel)))
}

/// The payload of a wake.
pub fn encode_wake_payload(sub_hash: &[u8], sender: Option<&[u8]>, channel: Option<&[u8]>) -> (r: Vec<u8>)
    ensures
        r@ == wake_bytes(sub_hash@, crate::notify::channel_view(sender), crate::notify::channel_view(channel)),
{
    let ghost want = wake_entries(
        sub_hash@,
        crate::notify::channel_view(sender),
        crate::notify::channel_view(channel),
    );
    let mut entries: Vec<(Item, Item)> = Vec::new();
    entries.push((Item::Str("receiver".to_owned()), Item::Binary(copied(sub_hash))));
    if let Some(s) = sender {
        entries.push((Item::Str("sender".to_owned()), Item::Binary(copied(s))));
    }
    if let Some(c) = channel {
        entries.push((Item::Str("channel".to_owned()), Item::Binary(copied(c))));
    }
    proof {
        broadcast use crate::msgpack::group_item_views;

        assert(crate::msgpack::entry_views(entries@) =~= want);
    }
    write_value(Item::Table(entries))
}

/// A relay is named by the 32 hexadecimal digits of its hash, in either case,
/// and by nothing else.
pub proof fn law_relay_is_named_by_its_digits(hash: Seq<u8>, text: Seq<char>)
    ensures
        hash.len() == 16 ==> relay_of(crate::text::hex_text(hash)) == Some(hash),
        hash.len() != 16 ==> relay_of(crate::text::hex_text(hash)) is None,
        relay_of(text) is Some ==> text.len() == 32,
{
    crate::text::law_hex_round_trip(hash);
}

/// A wake is sent exactly where there is a path to the relay, its identity is
/// known, and that has the hash of the relay under a known name. What is
/// missing first in this order is the reason why it is not.
pub proof fn law_when_a_wake_is_sent(relay: Seq<u8>, has_path: bool, identity: Option<Seq<u8>>)
    ensures
        !has_path ==> wake_plan(relay, has_path, identity) == Err::<RelayName, WakeDrop>(WakeDrop::NoPath),
        has_path && identity is None ==> wake_plan(relay, has_path, identity) == Err::<RelayName, WakeDrop>(
            WakeDrop::NoIdentity,
        ),
        has_path && identity is Some ==> {
            let apns = crate::digest::destination_hash_of(identity->0, "apns"@, seq!["relay"@]) == relay;
            let rfed = crate::digest::destination_hash_of(identity->0, "rfed"@, seq!["notify"@]) == relay;
            &&& apns ==> wake_plan(relay, has_path, identity) == Ok::<RelayName, WakeDrop>(RelayName::ApnsRelay)
            &&& !apns && rfed ==> wake_plan(relay, has_path, identity) == Ok::<RelayName, WakeDrop>(
                RelayName::RfedNotify,
            )
            &&& !apns && !rfed ==> wake_plan(relay, has_path, identity) == Err::<RelayName, WakeDrop>(
                WakeDrop::NoMatchingDestination,
            )
        },
{
}

/// A wake says whom it is for, and, where they are known, whom it is from and
/// which channel it is about, in this order.
pub proof fn law_what_a_wake_says(receiver: Seq<u8>, sender: Seq<u8>, channel: Seq<u8>)
    ensures
        ({
            let to = (crate::msgpack::Packed::Str("receiver"@), crate::msgpack::Packed::Binary(receiver));
            let from = (crate::msgpack::Packed::Str("sender"@), crate::msgpack::Packed::Binary(sender));
            let about = (crate::msgpack::Packed::Str("channel"@), crate::msgpack::Packed::Binary(channel));
            &&& wake_entries(receiver, None, None) == seq![to]
            &&& wake_entries(receiver, Some(sender), None) == seq![to, from]
            &&& wake_entries(receiver, None, Some(channel)) == seq![to, about]
            &&& wake_entries(receiver, Some(sender), Some(channel)) == seq![to, from, about]
        }),
{
    let to = (crate::msgpack::Packed::Str("receiver"@), crate::msgpack::Packed::Binary(receiver));
    let from = (crate::msgpack::Packed::Str("sender"@), crate::msgpack::Packed::Binary(sender));
    let about = (crate::msgpack::Packed::Str("channel"@), crate::msgpack::Packed::Binary(channel));
    assert(wake_entries(receiver, Some(sender), None) =~= seq![to, from]);
    assert(wake_entries(receiver, None, Some(channel)) =~= seq![to, about]);
    assert(wake_entries(receiver, Some(sender), Some(channel)) =~= seq![to, from, about]);
}

/// A wake is counted as sent exactly where an interface took the packet.
pub proof fn law_sent_wake_was_taken(
    sent: Result<bool, String>,
    relay_hash: Seq<u8>,
    relay: Seq<char>,
    sub_hash: Seq<u8>,
)
    ensures
        sent_result(sent, relay_hash, relay, sub_hash) is Sent <==> sent == Ok::<bool, String>(true),
        sent_result(sent, relay_hash, relay, sub_hash) matches WakeResult::Sent(h) ==> h == relay_hash,
        sent_result(sent, relay_hash, relay, sub_hash) matches WakeResult::Dropped(reason, _) ==> reason
            == WakeDrop::NotTransmitted,
{
}

/// A wake that counts as sent was handed to the stack: there was a path to the
/// relay, its identity was recalled, that has the hash of the relay under the
/// name it was sent to, and what was sent says whom it is for.
pub proof fn law_sent_wake_was_handed_over<S: RelayStack + ?Sized>(
    stack: &S,
    reg: NotifyRegistration,
    sender: Option<Seq<u8>>,
    channel: Option<Seq<u8>>,
    relay: Seq<u8>,
)
    requires
        is_wake(stack, reg, sender, channel, WakeResult::Sent(relay)),
    ensures
        crate::text::hex_bytes(reg.relay_hash@) == Some(relay),
        relay.len() == 16,
        exists|h: &[u8]| h@ == relay && #[trigger] call_ensures(S::has_path, (stack, h), true),
        exists|id: &[u8], name: RelayName, bytes: &[u8]|
            name.hash_of(id@) == relay && bytes@ == wake_bytes(reg.subscriber_hash@, sender, channel)
                && #[trigger] call_ensures(S::send, (stack, id, name, bytes), Ok::<bool, String>(true)),
{
    let identity = choose|identity: Option<Seq<u8>>| #[trigger]
        recall_answer(stack, relay, identity) && match wake_plan(relay, true, identity) {
            Err(reason) => path_requested(stack, relay) && WakeResult::Sent(relay) == dropped_wake(
                reason,
                reg.relay_hash@,
                reg.subscriber_hash@,
                plan_detail(reason, identity),
            ),
            Ok(name) => exists|sent: Result<bool, String>| #[trigger]
                send_answer(
                    stack,
                    identity->0,
                    name,
                    wake_bytes(reg.subscriber_hash@, sender, channel),
                    sent,
                ) && WakeResult::Sent(relay) == sent_result(sent, relay, reg.relay_hash@, reg.subscriber_hash@),
        };
    let name = wake_plan(relay, true, identity)->Ok_0;
    law_wake_is_addressed_to_the_relay(identity->0, relay);
    assert(send_answer(
        stack,
        identity->0,
        name,
        wake_bytes(reg.subscriber_hash@, sender, channel),
        Ok::<bool, String>(true),
    ));
}

/// Where there is a path to the relay, its identity is recalled and has the hash
/// of the relay under a name, and an interface takes what is sent to that name,
/// the wake counts as sent.
pub proof fn law_wake_that_was_taken_is_sent<S: RelayStack + ?Sized>(
    stack: &S,
    reg: NotifyRegistration,
    sender: Option<Seq<u8>>,
    channel: Option<Seq<u8>>,
    relay: Seq<u8>,
    h: &[u8],
    found: Option<Vec<u8>>,
    id: &[u8],
    bytes: &[u8],
)
    requires
        crate::text::hex_bytes(reg.relay_hash@) == Some(relay),
        relay.len() == 16,
        h@ == relay,
        call_ensures(S::has_path, (stack, h), true),
        call_ensures(S::recall, (stack, h), found),
        found is Some,
        id@ == found->0@,
        RelayName::ApnsRelay.hash_of(id@) == relay,
        bytes@ == wake_bytes(reg.subscriber_hash@, sender, channel),
        call_ensures(S::send, (stack, id, RelayName::ApnsRelay, bytes), Ok::<bool, String>(true)),
    ensures
        is_wake(stack, reg, sender, channel, WakeResult::Sent(relay)),
{
    assert(path_answer(stack, relay, true));
    assert(recall_answer(stack, relay, Some(id@)));
    assert(send_answer(stack, id@, RelayName::ApnsRelay, bytes@, Ok::<bool, String>(true)));
    assert(wake_plan(relay, true, Some(id@)) == Ok::<RelayName, WakeDrop>(RelayName::ApnsRelay));
    assert(sent_result(Ok::<bool, String>(true), relay, reg.relay_hash@, reg.subscriber_hash@) == WakeResult::Sent(
        relay,
    ));
}

/// The identity that a wake was sent to is the one that the stack recalls for the
/// relay.
pub proof fn law_recalled_identity_is_woken<S: RelayStack + ?Sized>(
    stack: &S,
    reg: NotifyRegistration,
    sender: Option<Seq<u8>>,
    channel: Option<Seq<u8>>,
    relay: Seq<u8>,
)
    requires
        is_wake(stack, reg, sender, channel, WakeResult::Sent(relay)),
    ensures
        exists|h: &[u8], found: Option<Vec<u8>>|
            h@ == relay && found is Some && wake_name_of(found->0@, relay) is Some && #[trigger] call_ensures(
                S::recall,
                (stack, h),
                found,
            ),
{
    let identity = choose|identity: Option<Seq<u8>>| #[trigger]
        recall_answer(stack, relay, identity) && match wake_plan(relay, true, identity) {
            Err(reason) => path_requested(stack, relay) && WakeResult::Sent(relay) == dropped_wake(
                reason,
                reg.relay_hash@,
                reg.subscriber_hash@,
                plan_detail(reason, identity),
            ),
            Ok(name) => exists|sent: Result<bool, String>| #[trigger]
                send_answer(
                    stack,
                    identity->0,
                    name,
                    wake_bytes(reg.subscriber_hash@, sender, channel),
                    sent,
                ) && WakeResult::Sent(relay) == sent_result(sent, relay, reg.relay_hash@, reg.subscriber_hash@),
        };
    let (h, found) = choose|h: &[u8], found: Option<Vec<u8>>|
        h@ == relay && opt_view(found) == identity && #[trigger] call_ensures(S::recall, (stack, h), found);
    assert(identity is Some);
    assert(found is Some && found->0@ == identity->0);
}

} // verus!
