//! Notify relays and delivery hooks.
//!
//! A subscriber registers relays, each named by the destination hash of a node
//! that forwards wake-ups to the subscriber's device. A registration is for
//! one channel, or for directly addressed messages where it names none.
use vstd::prelude::*;
use crate::octets::same_bytes;

pub mod rns;

verus! {

/// Whether a character is a lower-case hexadecimal digit.
pub open spec fn is_lower_hex(c: char) -> bool {
    '0' <= c <= '9' || 'a' <= c <= 'f'
}

/// Whether a text names a relay: 32 lower-case hexadecimal digits.
pub open spec fn is_relay_hash(hash: Seq<char>) -> bool {
    hash.len() == 32 && forall|i: int| 0 <= i < hash.len() ==> is_lower_hex(#[trigger] hash[i])
}

/// Accepts a text that names a relay, and refuses any other.
pub fn validate_relay_hash(hash: &str) -> (r: Result<(), String>)
    ensures
        r is Ok <==> is_relay_hash(hash@),
        r matches Err(e) ==> e@ == "relay hash must be a 32-char lowercase hex destination hash"@,
{
    if hash.unicode_len() == 32 {
        let mut i: usize = 0;
        while i < 32
            invariant
                0 <= i <= 32,
                hash@.len() == 32,
                forall|j: int| 0 <= j < i ==> is_lower_hex(#[trigger] hash@[j]),
            decreases 32 - i,
        {
            let c: char = hash.get_char(i);
            if !(('0' <= c && c <= '9') || ('a' <= c && c <= 'f')) {
                assert(!is_lower_hex(hash@[i as int]));
                return Err("relay hash must be a 32-char lowercase hex destination hash".to_owned());
            }
            i += 1;
        }
        return Ok(());
    }
    Err("relay hash must be a 32-char lowercase hex destination hash".to_owned())
}

/// A relay that a subscriber wants woken.
pub struct NotifyRegistration {
    /// Hash under which the subscriber is registered.
    pub subscriber_hash: Vec<u8>,
    /// The channel that the registration is for, or nothing where it is for
    /// directly addressed messages.
    pub channel_hash: Option<Vec<u8>>,
    /// The relay, by its destination hash in hexadecimal.
    pub relay_hash: String,
    /// When the registration was made or renewed.
    pub registered: u64,
}

/// What a registration holds.
pub struct Registration {
    pub subscriber: Seq<u8>,
    pub channel: Option<Seq<u8>>,
    pub relay: Seq<char>,
    pub registered: u64,
}

impl View for NotifyRegistration {
    type V = Registration;

    open spec fn view(&self) -> Registration {
        Registration {
            subscriber: self.subscriber_hash@,
            channel: crate::octets::opt_view(self.channel_hash),
            relay: self.relay_hash@,
            registered: self.registered,
        }
    }
}

/// The test that a registration is of this subscriber, channel and relay.
pub open spec fn same_registration(
    subscriber: Seq<u8>,
    channel: Option<Seq<u8>>,
    relay: Seq<char>,
) -> spec_fn(Registration) -> bool {
    |r: Registration| r.subscriber == subscriber && r.channel == channel && r.relay == relay
}

/// The test that a registration is not of this subscriber, channel and relay.
pub open spec fn other_registration(
    subscriber: Seq<u8>,
    channel: Option<Seq<u8>>,
    relay: Seq<char>,
) -> spec_fn(Registration) -> bool {
    |r: Registration| !(r.subscriber == subscriber && r.channel == channel && r.relay == relay)
}

/// The test that a registration is of this subscriber.
pub open spec fn of_subscriber(subscriber: Seq<u8>) -> spec_fn(Registration) -> bool {
    |r: Registration| r.subscriber == subscriber
}

/// The test that a registration is not of this subscriber.
pub open spec fn not_of_subscriber(subscriber: Seq<u8>) -> spec_fn(Registration) -> bool {
    |r: Registration| r.subscriber != subscriber
}

/// The test that a registration is of this subscriber and for this channel.
pub open spec fn of_channel(subscriber: Seq<u8>, channel: Option<Seq<u8>>) -> spec_fn(Registration) -> bool {
    |r: Registration| r.subscriber == subscriber && r.channel == channel
}

/// The registrations after one more: the first that is the same is renewed,
/// and otherwise a new one stands at the end.
pub open spec fn registered(regs: Seq<Registration>, new: Registration) -> Seq<Registration>
    decreases regs.len(),
{
    if regs.len() == 0 {
        seq![new]
    } else if same_registration(new.subscriber, new.channel, new.relay)(regs[0]) {
        seq![Registration { registered: new.registered, ..regs[0] }] + regs.skip(1)
    } else {
        seq![regs[0]] + registered(regs.skip(1), new)
    }
}

/// The notify registrations of a node.
pub struct NotifyRegistry {
    registrations: Vec<NotifyRegistration>,
}

/// The contents of a list of registrations.
pub open spec fn registration_views(regs: Seq<NotifyRegistration>) -> Seq<Registration> {
    regs.map_values(|r: NotifyRegistration| r@)
}

fn same_channel(a: &Option<Vec<u8>>, b: Option<&[u8]>) -> (r: bool)
    ensures
        r == (crate::octets::opt_view(*a) == channel_view(b)),
{
    match (a, b) {
        (Some(x), Some(y)) => same_bytes(x.as_slice(), y),
        (None, None) => true,
        _ => false,
    }
}

/// The contents of an optional slice.
pub open spec fn channel_view(c: Option<&[u8]>) -> Option<Seq<u8>> {
    match c {
        Some(s) => Some(s@),
        None => None,
    }
}

proof fn lemma_registered_appends(regs: Seq<Registration>, new: Registration)
    requires
        forall|i: int| 0 <= i < regs.len() ==> !same_registration(new.subscriber, new.channel, new.relay)(
            #[trigger] regs[i],
        ),
    ensures
        registered(regs, new) == regs.push(new),
    decreases regs.len(),
{
    if regs.len() > 0 {
        assert forall|i: int| 0 <= i < regs.skip(1).len() implies !same_registration(
            new.subscriber,
            new.channel,
            new.relay,
        )(#[trigger] regs.skip(1)[i]) by {
            assert(regs.skip(1)[i] == regs[i + 1]);
        }
        lemma_registered_appends(regs.skip(1), new);
        assert(seq![regs[0]] + regs.skip(1).push(new) =~= regs.push(new));
    } else {
        assert(seq![new] =~= regs.push(new));
    }
}

proof fn lemma_registered_renews(regs: Seq<Registration>, new: Registration, k: int)
    requires
        0 <= k < regs.len(),
        same_registration(new.subscriber, new.channel, new.relay)(regs[k]),
        forall|i: int| 0 <= i < k ==> !same_registration(new.subscriber, new.channel, new.relay)(#[trigger] regs[i]),
    ensures
        registered(regs, new) == regs.update(k, Registration { registered: new.registered, ..regs[k] }),
    decreases k,
{
    let renewed = Registration { registered: new.registered, ..regs[k] };
    if k == 0 {
        assert(seq![renewed] + regs.skip(1) =~= regs.update(0, renewed));
    } else {
        let rest = regs.skip(1);
        assert(rest[k - 1] == regs[k]);
        assert forall|i: int| 0 <= i < k - 1 implies !same_registration(new.subscriber, new.channel, new.relay)(
            #[trigger] rest[i],
        ) by {
            assert(rest[i] == regs[i + 1]);
        }
        lemma_registered_renews(rest, new, k - 1);
        assert(seq![regs[0]] + rest.update(k - 1, renewed) =~= regs.update(k, renewed));
    }
}

impl NotifyRegistry {
    /// The registrations, oldest first.
    pub closed spec fn view(&self) -> Seq<Registration> {
        registration_views(self.registrations@)
    }

    /// A registry of these registrations.
    pub fn load(registrations: Vec<NotifyRegistration>) -> (r: Self)
        ensures
            r@ == registration_views(registrations@),
    {
        NotifyRegistry { registrations }
    }

    /// All registrations.
    pub fn registrations(&self) -> (r: &Vec<NotifyRegistration>)
        ensures
            registration_views(r@) == self@,
    {
        &self.registrations
    }

    /// Registers a relay for directly addressed messages, or renews it.
    pub fn register(&mut self, subscriber_hash: Vec<u8>, relay_hash: String, now: u64)
        ensures
            final(self)@ == registered(
                old(self)@,
                (Registration { subscriber: subscriber_hash@, channel: None, relay: relay_hash@, registered: now }),
            ),
    {
        self.register_for_channel(subscriber_hash, None, relay_hash, now);
    }

    /// Registers a relay for a channel, or renews it. Where no channel is
    /// given the registration is for directly addressed messages.
    pub fn register_for_channel(
        &mut self,
        subscriber_hash: Vec<u8>,
        channel_hash: Option<Vec<u8>>,
        relay_hash: String,
        now: u64,
    )
        ensures
            final(self)@ == registered(
                old(self)@,
                (Registration {
                    subscriber: subscriber_hash@,
                    channel: crate::octets::opt_view(channel_hash),
                    relay: relay_hash@,
                    registered: now,
                }),
            ),
    {
        let ghost new = Registration {
            subscriber: subscriber_hash@,
            channel: crate::octets::opt_view(channel_hash),
            relay: relay_hash@,
            registered: now,
        };
        let ghost before = self@;
        let mut i: usize = 0;
        while i < self.registrations.len()
            invariant
                0 <= i <= self.registrations@.len(),
                self@ == before,
                before == old(self)@,
                new.registered == now,
                new.subscriber == subscriber_hash@,
                new.channel == crate::octets::opt_view(channel_hash),
                new.relay == relay_hash@,
                forall|j: int| 0 <= j < i ==> !same_registration(new.subscriber, new.channel, new.relay)(
                    #[trigger] before[j],
                ),
            decreases self.registrations@.len() - i,
        {
            let r: &NotifyRegistration = &self.registrations[i];
            let channel: Option<&[u8]> = match &channel_hash {
                Some(c) => Some(c.as_slice()),
                None => None,
            };
            assert(before[i as int] == self.registrations@[i as int]@);
            if same_bytes(r.subscriber_hash.as_slice(), subscriber_hash.as_slice()) && same_channel(
                &r.channel_hash,
                channel,
            ) && r.relay_hash == relay_hash {
                let ghost list = self.registrations@;
                self.registrations[i].registered = now;
                proof {
                    lemma_registered_renews(before, new, i as int);
                    assert(self@ =~= before.update(
                        i as int,
                        Registration { registered: new.registered, ..before[i as int] },
                    ));
                }
                return;
            }
            i += 1;
        }
        self.registrations.push(
            NotifyRegistration { subscriber_hash, channel_hash, relay_hash, registered: now },
        );
        proof {
            lemma_registered_appends(before, new);
            assert(self@ =~= before.push(new));
        }
    }

    /// Takes a registration for directly addressed messages out. Says whether
    /// there was one.
    pub fn unregister(&mut self, subscriber_hash: &[u8], relay_hash: &str) -> (r: bool)
        ensures
            final(self)@ == old(self)@.filter(other_registration(subscriber_hash@, None, relay_hash@)),
            r == (final(self)@.len() != old(self)@.len()),
    {
        self.unregister_for_channel(subscriber_hash, None, relay_hash)
    }

    /// Takes a registration for a channel out. Says whether there was one.
    pub fn unregister_for_channel(
        &mut self,
        subscriber_hash: &[u8],
        channel_hash: Option<&[u8]>,
        relay_hash: &str,
    ) -> (r: bool)
        ensures
            final(self)@ == old(self)@.filter(
                other_registration(subscriber_hash@, channel_view(channel_hash), relay_hash@),
            ),
            r == (final(self)@.len() != old(self)@.len()),
    {
        let ghost keep = other_registration(subscriber_hash@, channel_view(channel_hash), relay_hash@);
        let ghost all = self@;
        let before: usize = self.registrations.len();
        let relay: String = relay_hash.to_owned();
        let mut kept: Vec<NotifyRegistration> = Vec::new();
        let mut old_list: Vec<NotifyRegistration> = Vec::new();
        std::mem::swap(&mut self.registrations, &mut old_list);
        proof {
            crate::octets::lemma_filter_ends(all, keep);
        }
        for r in it: old_list
            invariant
                registration_views(it.seq()) == all,
                relay@ == relay_hash@,
                keep == other_registration(subscriber_hash@, channel_view(channel_hash), relay_hash@),
                registration_views(kept@) == all.take(it.index() as int).filter(keep),
        {
            proof {
                crate::octets::lemma_filter_step(all, keep, it.index() as int);
                assert(all[it.index() as int] == r@);
            }
            let ghost was = kept@;
            if !(same_bytes(r.subscriber_hash.as_slice(), subscriber_hash) && same_channel(
                &r.channel_hash,
                channel_hash,
            ) && r.relay_hash == relay) {
                kept.push(r);
                assert(registration_views(kept@) =~= registration_views(was).push(r@));
            }
        }
        self.registrations = kept;
        self.registrations.len() != before
    }

    /// Takes every registration of a subscriber out. Says whether there were
    /// any.
    pub fn clear(&mut self, subscriber_hash: &[u8]) -> (r: bool)
        ensures
            final(self)@ == old(self)@.filter(not_of_subscriber(subscriber_hash@)),
            r == (final(self)@.len() != old(self)@.len()),
    {
        let ghost keep = not_of_subscriber(subscriber_hash@);
        let ghost all = self@;
        let before: usize = self.registrations.len();
        let mut kept: Vec<NotifyRegistration> = Vec::new();
        let mut old_list: Vec<NotifyRegistration> = Vec::new();
        std::mem::swap(&mut self.registrations, &mut old_list);
        proof {
            crate::octets::lemma_filter_ends(all, keep);
        }
        for r in it: old_list
            invariant
                registration_views(it.seq()) == all,
                keep == not_of_subscriber(subscriber_hash@),
                registration_views(kept@) == all.take(it.index() as int).filter(keep),
        {
            proof {
                crate::octets::lemma_filter_step(all, keep, it.index() as int);
                assert(all[it.index() as int] == r@);
            }
            let ghost was = kept@;
            if !same_bytes(r.subscriber_hash.as_slice(), subscriber_hash) {
                kept.push(r);
                assert(registration_views(kept@) =~= registration_views(was).push(r@));
            }
        }
        self.registrations = kept;
        self.registrations.len() != before
    }

    /// The registrations of a subscriber.
    pub fn get(&self, subscriber_hash: &[u8]) -> (r: Vec<&NotifyRegistration>)
        ensures
            r@.map_values(|x: &NotifyRegistration| x@) == self@.filter(of_subscriber(subscriber_hash@)),
    {
        let ghost keep = of_subscriber(subscriber_hash@);
        let mut out: Vec<&NotifyRegistration> = Vec::new();
        let mut i: usize = 0;
        proof {
            crate::octets::lemma_filter_ends(self@, keep);
            assert(out@.map_values(|x: &NotifyRegistration| x@) =~= Seq::<Registration>::empty());
        }
        while i < self.registrations.len()
            invariant
                0 <= i <= self.registrations@.len(),
                keep == of_subscriber(subscriber_hash@),
                out@.map_values(|x: &NotifyRegistration| x@) == self@.take(i as int).filter(keep),
            decreases self.registrations@.len() - i,
        {
            proof {
                crate::octets::lemma_filter_step(self@, keep, i as int);
                assert(self@[i as int] == self.registrations@[i as int]@);
            }
            let r: &NotifyRegistration = &self.registrations[i];
            if same_bytes(r.subscriber_hash.as_slice(), subscriber_hash) {
                let ghost was = out@;
                out.push(r);
                assert(out@.map_values(|x: &NotifyRegistration| x@) =~= was.map_values(
                    |x: &NotifyRegistration| x@,
                ).push(r@));
            }
            i += 1;
        }
        out
    }

    /// The registrations of a subscriber for a channel, or for directly
    /// addressed messages where no channel is given.
    pub fn get_for_channel(&self, subscriber_hash: &[u8], channel_hash: Option<&[u8]>) -> (r: Vec<&NotifyRegistration>)
        ensures
            r@.map_values(|x: &NotifyRegistration| x@) == self@.filter(
                of_channel(subscriber_hash@, channel_view(channel_hash)),
            ),
    {
        let ghost keep = of_channel(subscriber_hash@, channel_view(channel_hash));
        let mut out: Vec<&NotifyRegistration> = Vec::new();
        let mut i: usize = 0;
        proof {
            crate::octets::lemma_filter_ends(self@, keep);
            assert(out@.map_values(|x: &NotifyRegistration| x@) =~= Seq::<Registration>::empty());
        }
        while i < self.registrations.len()
            invariant
                0 <= i <= self.registrations@.len(),
                keep == of_channel(subscriber_hash@, channel_view(channel_hash)),
                out@.map_values(|x: &NotifyRegistration| x@) == self@.take(i as int).filter(keep),
            decreases self.registrations@.len() - i,
        {
            proof {
                crate::octets::lemma_filter_step(self@, keep, i as int);
                assert(self@[i as int] == self.registrations@[i as int]@);
            }
            let r: &NotifyRegistration = &self.registrations[i];
            if same_bytes(r.subscriber_hash.as_slice(), subscriber_hash) && same_channel(&r.channel_hash, channel_hash) {
                let ghost was = out@;
                out.push(r);
                assert(out@.map_values(|x: &NotifyRegistration| x@) =~= was.map_values(
                    |x: &NotifyRegistration| x@,
                ).push(r@));
            }
            i += 1;
        }
        out
    }

    /// The number of registrations.
    pub fn count(&self) -> (r: usize)
        ensures
            r == self@.len(),
    {
        self.registrations.len()
    }
}

/// Registering the same relay again changes nothing but the time.
pub proof fn law_register_again_renews(regs: Seq<Registration>, new: Registration, later: u64)
    ensures
        registered(registered(regs, new), (Registration { registered: later, ..new })).len() == registered(
            regs,
            new,
        ).len(),
        registered(registered(regs, new), (Registration { registered: later, ..new })) == registered(
            regs,
            (Registration { registered: later, ..new }),
        ),
    decreases regs.len(),
{
    let again = Registration { registered: later, ..new };
    let once = registered(regs, new);
    if regs.len() == 0 {
        assert(once.skip(1) =~= Seq::<Registration>::empty());
        assert(registered(once, again) =~= seq![again]);
    } else if same_registration(new.subscriber, new.channel, new.relay)(regs[0]) {
        assert(once[0].subscriber == regs[0].subscriber);
        assert(once.skip(1) =~= regs.skip(1));
        assert(registered(once, again) =~= registered(regs, again));
    } else {
        law_register_again_renews(regs.skip(1), new, later);
        assert(once[0] == regs[0]);
        assert(once.skip(1) =~= registered(regs.skip(1), new));
        assert(registered(once, again) =~= registered(regs, again));
    }
}

/// A relay that was just registered is found under its subscriber and channel,
/// and is gone once it is taken out.
pub proof fn law_registered_relay_is_found(regs: Seq<Registration>, new: Registration)
    ensures
        exists|r: Registration| #[trigger]
            registered(regs, new).filter(of_channel(new.subscriber, new.channel)).contains(r) && r.relay == new.relay
                && r.registered == new.registered,
        forall|r: Registration| #[trigger]
            registered(regs, new).filter(other_registration(new.subscriber, new.channel, new.relay)).contains(r)
                ==> !same_registration(new.subscriber, new.channel, new.relay)(r),
    decreases regs.len(),
{
    let all = registered(regs, new);
    let found = of_channel(new.subscriber, new.channel);
    crate::octets::lemma_filter_holds(all, found);
    crate::octets::lemma_filter_holds(all, other_registration(new.subscriber, new.channel, new.relay));
    if regs.len() == 0 {
        assert(all[0] == new);
        assert(all.contains(new));
        assert(all.filter(found).contains(new));
    } else if same_registration(new.subscriber, new.channel, new.relay)(regs[0]) {
        let renewed = Registration { registered: new.registered, ..regs[0] };
        assert(all[0] == renewed);
        assert(all.contains(renewed));
        assert(all.filter(found).contains(renewed));
    } else {
        law_registered_relay_is_found(regs.skip(1), new);
        let rest = registered(regs.skip(1), new);
        crate::octets::lemma_filter_holds(rest, found);
        let r = choose|r: Registration| #[trigger]
            rest.filter(found).contains(r) && r.relay == new.relay && r.registered == new.registered;
        assert(rest.contains(r));
        let i = rest.index_of(r);
        assert(all[i + 1] == r);
        assert(all.contains(r));
        assert(all.filter(found).contains(r));
    }
}

/// An adapter that is told of deliveries.
pub trait DeliveryHook: Send + Sync {
    /// Whether the adapter was told of a delivery. An adapter that keeps an
    /// account of deliveries can give this a meaning of its own. A caller who
    /// does not know the adapter learns it by [`DeliveryHook::on_deliver`] and
    /// in no other way.
    open spec fn told(&self, subscriber: Seq<u8>, blob: Seq<u8>) -> bool {
        true
    }

    /// A blob was handed to the network for a subscriber.
    fn on_deliver(&self, subscriber_pubkey: &[u8], inner_blob: &[u8])
        ensures
            self.told(subscriber_pubkey@, inner_blob@),
    ;
}

/// Whether each of a list of hooks was told of a delivery.
pub open spec fn all_told<H: DeliveryHook + ?Sized>(hooks: Seq<Box<H>>, subscriber: Seq<u8>, blob: Seq<u8>) -> bool {
    forall|i: int| 0 <= i < hooks.len() ==> (#[trigger] hooks[i]).told(subscriber, blob)
}

/// The calls of a delivery: one of each hook, in the order of registration, with
/// the subscriber and the blob.
pub open spec fn calls_of<H: DeliveryHook + ?Sized>(hooks: Seq<Box<H>>, subscriber: Seq<u8>, blob: Seq<u8>) -> Seq<
    (Box<H>, Seq<u8>, Seq<u8>),
> {
    Seq::new(hooks.len(), |i: int| (hooks[i], subscriber, blob))
}

/// The calls of a delivery after one more hook was registered are those of
/// before, and then one of the new hook.
pub proof fn law_one_more_hook_is_one_more_call<H: DeliveryHook + ?Sized>(
    hooks: Seq<Box<H>>,
    hook: Box<H>,
    subscriber: Seq<u8>,
    blob: Seq<u8>,
)
    ensures
        calls_of(hooks.push(hook), subscriber, blob) == calls_of(hooks, subscriber, blob).push(
            (hook, subscriber, blob),
        ),
{
    assert(calls_of(hooks.push(hook), subscriber, blob) =~= calls_of(hooks, subscriber, blob).push(
        (hook, subscriber, blob),
    ));
}

/// A list with one more hook.
proof fn lemma_one_more<H: DeliveryHook + ?Sized>(hooks: Seq<Box<H>>, hook: Box<H>)
    ensures
        hooks.push(hook).len() == hooks.len() + 1,
        hooks.push(hook)[hooks.len() as int] == hook,
        forall|i: int| 0 <= i < hooks.len() ==> #[trigger] hooks.push(hook)[i] == hooks[i],
        forall|subscriber: Seq<u8>, blob: Seq<u8>| #[trigger]
            all_told(hooks.push(hook), subscriber, blob) <==> all_told(hooks, subscriber, blob) && hooks.push(
                hook,
            )[hooks.len() as int].told(subscriber, blob),
{
    let more = hooks.push(hook);
    assert forall|subscriber: Seq<u8>, blob: Seq<u8>| #[trigger] all_told(more, subscriber, blob) implies all_told(
        hooks,
        subscriber,
        blob,
    ) && more[hooks.len() as int].told(subscriber, blob) by {
        assert forall|i: int| 0 <= i < hooks.len() implies (#[trigger] hooks[i]).told(subscriber, blob) by {
            assert(more[i].told(subscriber, blob));
        }
    }
}

/// A hook that is registered is told of deliveries as well, and takes nothing
/// from those that were there.
pub proof fn law_one_more_hook_is_told<H: DeliveryHook + ?Sized>(
    hooks: Seq<Box<H>>,
    hook: Box<H>,
    subscriber: Seq<u8>,
    blob: Seq<u8>,
)
    ensures
        hooks.push(hook).len() == hooks.len() + 1,
        all_told(hooks.push(hook), subscriber, blob) <==> all_told(hooks, subscriber, blob) && hook.told(
            subscriber,
            blob,
        ),
{
    lemma_one_more(hooks, hook);
}

/// The delivery hooks, called in the order of their registration.
pub struct HookRegistry {
    hooks: Vec<Box<dyn DeliveryHook>>,
}

impl HookRegistry {
    /// The registered hooks.
    pub closed spec fn view(&self) -> Seq<Box<dyn DeliveryHook>> {
        self.hooks@
    }

    /// No hooks.
    pub fn new() -> (r: Self)
        ensures
            r@.len() == 0,
    {
        HookRegistry { hooks: Vec::new() }
    }

    /// Adds a hook behind those that are there. Those are told of deliveries as
    /// before, and the new one in its place.
    pub fn register(&mut self, hook: Box<dyn DeliveryHook>)
        ensures
            final(self)@ == old(self)@.push(hook),
            final(self)@.len() == old(self)@.len() + 1,
            forall|i: int| 0 <= i < old(self)@.len() ==> #[trigger] final(self)@[i] == old(self)@[i],
            forall|subscriber: Seq<u8>, blob: Seq<u8>| #[trigger]
                all_told(final(self)@, subscriber, blob) <==> all_told(old(self)@, subscriber, blob)
                    && final(self)@[old(self)@.len() as int].told(subscriber, blob),
    {
        let ghost before = self@;
        proof {
            lemma_one_more(before, hook);
        }
        self.hooks.push(hook);
    }

    /// Calls every hook, with the subscriber and the blob as they are. Returns
    /// the number of hooks that were called.
    ///
    /// That every call of [`calls_of`] was made is stated. A call leaves nothing
    /// behind by which two of them could be told apart, so that they were made
    /// in this order and no more than once is not.
    pub fn on_deliver(&self, subscriber_pubkey: &[u8], inner_blob: &[u8]) -> (r: usize)
        ensures
            r == self@.len(),
            r == calls_of(self@, subscriber_pubkey@, inner_blob@).len(),
            all_told(self@, subscriber_pubkey@, inner_blob@),
            forall|i: int|
                0 <= i < self@.len() ==> ({
                    let call = #[trigger] calls_of(self@, subscriber_pubkey@, inner_blob@)[i];
                    call.0 == self@[i] && call.0.told(call.1, call.2)
                }),
    {
        let mut i: usize = 0;
        while i < self.hooks.len()
            invariant
                0 <= i <= self.hooks@.len(),
                forall|k: int| 0 <= k < i ==> (#[trigger] self@[k]).told(subscriber_pubkey@, inner_blob@),
            decreases self.hooks@.len() - i,
        {
            self.hooks[i].on_deliver(subscriber_pubkey, inner_blob);
            i += 1;
        }
        i
    }
}

impl Default for HookRegistry {
    fn default() -> (r: Self)
        ensures
            r@.len() == 0,
    {
        HookRegistry::new()
    }
}

/// A registration that is made is there afterwards, with its time; every other
/// stays as it was, in its place.
pub proof fn law_registering_changes_nothing_else(regs: Seq<Registration>, new: Registration)
    ensures
        ({
            let after = registered(regs, new);
            &&& regs.len() <= after.len() <= regs.len() + 1
            &&& after.len() == regs.len() <==> exists|i: int|
                0 <= i < regs.len() && (#[trigger] regs[i]).subscriber == new.subscriber && regs[i].channel
                    == new.channel && regs[i].relay == new.relay
            &&& exists|k: int| 0 <= k < after.len() && #[trigger] after[k] == new
            &&& forall|i: int|
                0 <= i < regs.len() && !(regs[i].subscriber == new.subscriber && regs[i].channel == new.channel
                    && regs[i].relay == new.relay) ==> #[trigger] after[i] == regs[i]
            &&& forall|i: int|
                0 <= i < regs.len() ==> (#[trigger] after[i]).subscriber == regs[i].subscriber && after[i].channel
                    == regs[i].channel && after[i].relay == regs[i].relay
        }),
    decreases regs.len(),
{
    let after = registered(regs, new);
    if regs.len() == 0 {
        assert(after[0] == new);
    } else if same_registration(new.subscriber, new.channel, new.relay)(regs[0]) {
        assert(after[0] == new);
        assert forall|i: int| 0 < i < regs.len() implies #[trigger] after[i] == regs[i] by {
            assert(regs.skip(1)[i - 1] == regs[i]);
        }
    } else {
        let rest = regs.skip(1);
        let tail = registered(rest, new);
        law_registering_changes_nothing_else(rest, new);
        let k = choose|k: int| 0 <= k < tail.len() && #[trigger] tail[k] == new;
        assert(after[k + 1] == new);
        assert forall|i: int| 0 < i < after.len() implies #[trigger] after[i] == tail[i - 1] by {}
        assert forall|i: int| 0 < i < regs.len() implies #[trigger] regs[i] == rest[i - 1] by {}
        if exists|i: int|
            0 <= i < rest.len() && (#[trigger] rest[i]).subscriber == new.subscriber && rest[i].channel == new.channel
                && rest[i].relay == new.relay {
            let i = choose|i: int|
                0 <= i < rest.len() && (#[trigger] rest[i]).subscriber == new.subscriber && rest[i].channel
                    == new.channel && rest[i].relay == new.relay;
            assert(regs[i + 1].subscriber == new.subscriber);
        }
        if exists|i: int|
            0 <= i < regs.len() && (#[trigger] regs[i]).subscriber == new.subscriber && regs[i].channel == new.channel
                && regs[i].relay == new.relay {
            let i = choose|i: int|
                0 <= i < regs.len() && (#[trigger] regs[i]).subscriber == new.subscriber && regs[i].channel
                    == new.channel && regs[i].relay == new.relay;
            assert(rest[i - 1].subscriber == new.subscriber);
        }
    }
}

/// Which registrations are found, and which are left once some are taken out.
pub proof fn law_registrations_are_told_apart(
    regs: Seq<Registration>,
    subscriber: Seq<u8>,
    channel: Option<Seq<u8>>,
    relay: Seq<char>,
    r: Registration,
)
    ensures
        regs.filter(of_channel(subscriber, channel)).contains(r) <==> regs.contains(r) && r.subscriber == subscriber
            && r.channel == channel,
        regs.filter(of_subscriber(subscriber)).contains(r) <==> regs.contains(r) && r.subscriber == subscriber,
        regs.filter(not_of_subscriber(subscriber)).contains(r) <==> regs.contains(r) && r.subscriber != subscriber,
        regs.filter(other_registration(subscriber, channel, relay)).contains(r) <==> regs.contains(r) && (r.subscriber
            != subscriber || r.channel != channel || r.relay != relay),
{
    crate::octets::lemma_filter_holds(regs, of_channel(subscriber, channel));
    crate::octets::lemma_filter_holds(regs, of_subscriber(subscriber));
    crate::octets::lemma_filter_holds(regs, not_of_subscriber(subscriber));
    crate::octets::lemma_filter_holds(regs, other_registration(subscriber, channel, relay));
}

/// The text of every hash of a destination is taken as a relay's, and what is
/// taken names 16 bytes of which it is the text.
pub proof fn law_relay_hashes_are_texts_of_hashes(bytes: Seq<u8>, text: Seq<char>)
    requires
        bytes.len() == 16,
    ensures
        is_relay_hash(crate::text::hex_text(bytes)),
        is_relay_hash(text) ==> (crate::text::hex_bytes(text) matches Some(b) && b.len() == 16
            && crate::text::hex_text(b) == text),
{
    let t = crate::text::hex_text(bytes);
    assert forall|i: int| 0 <= i < t.len() implies is_lower_hex(#[trigger] t[i]) by {
        let b = bytes[i / 2] as int;
        assert(0 <= b / 16 < 16 && 0 <= b % 16 < 16);
    }
    if is_relay_hash(text) {
        assert forall|i: int| 0 <= i < text.len() implies crate::text::hex_value(#[trigger] text[i]) is Some by {
            assert(is_lower_hex(text[i]));
        }
        let b = crate::text::hex_bytes(text)->0;
        let back = crate::text::hex_text(b);
        assert forall|i: int| 0 <= i < text.len() implies back[i] == text[i] by {
            let k = i / 2;
            assert(is_lower_hex(text[2 * k]));
            assert(is_lower_hex(text[2 * k + 1]));
            let hi = crate::text::hex_value(text[2 * k])->0;
            let lo = crate::text::hex_value(text[2 * k + 1])->0;
            assert(0 <= hi < 16 && 0 <= lo < 16);
            assert(b[k] == hi * 16 + lo);
            assert(b[k] as int / 16 == hi && b[k] as int % 16 == lo);
            if i % 2 == 0 {
                assert(i == 2 * k);
            } else {
                assert(i == 2 * k + 1);
            }
        }
        assert(back =~= text);
    }
}

/// A relay that is registered for a channel is found for it, and once the
/// subscriber cleared its relays none is.
pub proof fn law_relay_until_cleared(
    registry: &mut NotifyRegistry,
    subscriber: Vec<u8>,
    channel: Option<Vec<u8>>,
    relay: String,
    now: u64,
    later: &mut NotifyRegistry,
    hash: &[u8],
    cleared: bool,
    x: Registration,
)
    requires
        call_ensures(NotifyRegistry::register_for_channel, (registry, subscriber, channel, relay, now), ()),
        *old(later) == *final(registry),
        call_ensures(NotifyRegistry::clear, (later, hash), cleared),
        hash@ == subscriber@,
    ensures
        exists|i: int|
            0 <= i < final(registry)@.len() && (#[trigger] final(registry)@[i]).subscriber == subscriber@ && final(registry)@[i].channel == crate::octets::opt_view(channel) && final(registry)@[i].relay == relay@ && final(registry)@[i].registered == now,
        final(later)@.contains(x) ==> x.subscriber != subscriber@,
        x.subscriber != subscriber@ ==> (final(later)@.contains(x) <==> final(registry)@.contains(x)),
{
    let new = Registration {
        subscriber: subscriber@,
        channel: crate::octets::opt_view(channel),
        relay: relay@,
        registered: now,
    };
    law_registering_changes_nothing_else(old(registry)@, new);
    crate::octets::lemma_filter_holds(final(registry)@, not_of_subscriber(subscriber@));
}

} // verus!
