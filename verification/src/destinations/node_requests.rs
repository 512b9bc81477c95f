//! Requests of other nodes, and of clients that ask about the node or its
//! relays.
use vstd::prelude::*;
use crate::announce::decode_node_announce;
use crate::config::{effective_cost_of, effective_stamp_cost, NodeConfig};
use crate::destinations::channel_requests::bool_reply;
use crate::destinations::fed_node::{FedNode, Service};
use crate::destinations::notify_command::{
    after_command, command_of, handle_notify_command, is_named_by, names_relay, notify_refusal, parse_notify_command,
    Command, NamedRelay, NotifyCommand, NotifyCommandKind, NotifyEnd,
};
use crate::destinations::payload::{PayloadError, Signed};
use crate::digest::{truncated_hash, truncated_hash_of};
use crate::msgpack::{
    entry_views, msgpack_read, msgpack_write, pair_list_read, pair_views, read_pair_list, write_bool, write_value,
    Item, Packed,
};
use crate::octets::{copied, holds, same_bytes, views};
use crate::subscription::{with_backup, Subscription};

verus! {

/// The command of a signed request, where it is signed and makes one.
pub open spec fn signed_command(signed: Result<Signed, PayloadError>, kind: Option<NotifyCommandKind>) -> Option<Command> {
    match signed {
        Err(_) => None,
        Ok(s) => match command_of(s.value@, msgpack_read(s.value@), kind) {
            Ok(c) => Some(c),
            Err(_) => None,
        },
    }
}

/// The answer to a request about relays.
pub struct NotifyReply {
    pub reply: Vec<u8>,
    /// The relay that was named.
    pub relay: Option<NamedRelay>,
}

/// The node that an identity runs.
pub open spec fn node_of_key(public_key: Seq<u8>) -> Seq<u8> {
    Service::Node.hash_of(truncated_hash_of(public_key))
}

/// Whether a node may have its subscriptions held here.
pub open spec fn is_trusted_owner(config: NodeConfig, owner: Seq<u8>) -> bool {
    config.trusted_backup_peers@.len() == 0 || views(config.trusted_backup_peers@).contains(owner)
}

/// The subscriptions after each of a list is held for `owner`.
pub open spec fn with_backups(subs: Seq<Subscription>, pairs: Seq<(Seq<u8>, Seq<u8>)>, owner: Seq<u8>, now: u64) -> Seq<
    Subscription,
>
    decreases pairs.len(),
{
    if pairs.len() == 0 {
        subs
    } else {
        with_backup(
            with_backups(subs, pairs.drop_last(), owner, now),
            pairs.last().0,
            pairs.last().1,
            owner,
            now,
        )
    }
}

/// The subscriptions that a node asks to have held, where it may.
pub open spec fn granted_backups(config: NodeConfig, signed: Result<Signed, PayloadError>) -> Option<
    Seq<(Seq<u8>, Seq<u8>)>,
> {
    match signed {
        Err(_) => None,
        Ok(s) => if is_trusted_owner(config, node_of_key(s.public_key@)) {
            pair_list_read(s.value@)
        } else {
            None
        },
    }
}

/// What a node says of itself.
pub open spec fn capability_entries(config: NodeConfig, build: Seq<char>) -> Seq<(Packed, Packed)> {
    let p = config.default_policy;
    seq![
        (Packed::Str("protocol_version"@), Packed::UInt(1)),
        (Packed::Str("display_name"@), Packed::Str(config.display_name@)),
        (Packed::Str("build"@), Packed::Str(build)),
        (Packed::Str("subscription"@), Packed::Boolean(p.allow_subscription)),
        (Packed::Str("notify"@), Packed::Boolean(p.allow_notify_registration)),
        (Packed::Str("lxmf_propagation"@), Packed::Boolean(config.lxmf_propagation_enabled)),
        (Packed::Str("channel_stream"@), Packed::Boolean(true)),
        (Packed::Str("propagation_stream"@), Packed::Boolean(config.lxmf_propagation_enabled)),
        (Packed::Str("distro"@), Packed::Boolean(true)),
        (
            Packed::Str("backup"@),
            Packed::Boolean(config.primary_node is Some || config.secondary_nodes@.len() > 0),
        ),
        (
            Packed::Str("stamp_cost"@),
            match effective_cost_of(p.stamp_cost) {
                Some(c) => Packed::UInt(c as u64),
                None => Packed::Nil,
            },
        ),
    ]
}

fn entry(key: &str, value: Item) -> (r: (Item, Item))
    ensures
        r.0@ == Packed::Str(key@),
        r.1 == value,
{
    broadcast use crate::msgpack::group_item_views;

    (Item::Str(key.to_owned()), value)
}

impl FedNode {
    /// Carries out a signed request about relays, sent to a destination for
    /// requests of a kind or for all of them.
    pub fn on_notify_request(&mut self, signed: Result<Signed, PayloadError>, kind: Option<NotifyCommandKind>, now: u64) -> (r:
        NotifyReply)
        ensures
            *final(self) == (FedNode { notify_registry: final(self).notify_registry, ..*old(self) }),
            match signed_command(signed, kind) {
                None => r.reply@ == bool_reply(false) && *final(self) == *old(self) && r.relay is None,
                Some(c) => {
                    let subscriber = signed->Ok_0.identity_hash@;
                    let refusal = notify_refusal(old(self).config, c, subscriber, true);
                    &&& r.reply@ == bool_reply(refusal is None)
                    &&& refusal is Some ==> final(self).notify_registry@ == old(self).notify_registry@
                    &&& refusal is None ==> final(self).notify_registry@ == after_command(
                        old(self).notify_registry@,
                        c,
                        subscriber,
                        now,
                    )
                    &&& r.relay is Some <==> names_relay(c, true)
                    &&& r.relay matches Some(n) ==> is_named_by(
                        n,
                        c.relay->0,
                        subscriber,
                        signed->Ok_0.public_key@,
                    )
                },
            },
    {
        let s: Signed = match signed {
            Ok(s) => s,
            Err(_) => return NotifyReply { reply: write_bool(false), relay: None },
        };
        let command: NotifyCommand = match parse_notify_command(s.value.as_slice(), kind) {
            Ok(c) => c,
            Err(_) => return NotifyReply { reply: write_bool(false), relay: None },
        };
        let end: NotifyEnd = handle_notify_command(
            &mut self.notify_registry,
            &self.config,
            command,
            s.identity_hash.as_slice(),
            Some(s.public_key),
            now,
        );
        NotifyReply { reply: write_bool(end.result.is_ok()), relay: end.relay }
    }

    /// Holds subscriptions for the node that asks for it, where it is trusted.
    pub fn on_backup_push(&mut self, signed: Result<Signed, PayloadError>, now: u64) -> (r: Vec<u8>)
        ensures
            *final(self) == (FedNode { subscription_table: final(self).subscription_table, ..*old(self) }),
            r@ == bool_reply(granted_backups(old(self).config, signed) is Some),
            match granted_backups(old(self).config, signed) {
                None => *final(self) == *old(self),
                Some(pairs) => final(self).subscription_table@ == with_backups(
                    old(self).subscription_table@,
                    pairs,
                    node_of_key(signed->Ok_0.public_key@),
                    now,
                ),
            },
    {
        let s: Signed = match signed {
            Ok(s) => s,
            Err(_) => return write_bool(false),
        };
        let owner: Vec<u8> = Service::Node.hash(truncated_hash(s.public_key.as_slice()).as_slice());
        let pairs: Vec<(Vec<u8>, Vec<u8>)> = match read_pair_list(s.value.as_slice()) {
            Some(p) => p,
            None => return write_bool(false),
        };
        if self.config.trusted_backup_peers.len() > 0 && !holds(
            self.config.trusted_backup_peers.as_slice(),
            owner.as_slice(),
        ) {
            return write_bool(false);
        }
        let ghost all = pair_views(pairs@);
        let ghost before = self.subscription_table@;
        let mut i: usize = 0;
        while i < pairs.len()
            invariant
                0 <= i <= pairs@.len(),
                all == pair_views(pairs@),
                *self == (FedNode { subscription_table: self.subscription_table, ..*old(self) }),
                self.subscription_table@ == with_backups(before, all.take(i as int), owner@, now),
            decreases pairs@.len() - i,
        {
            proof {
                assert(all.take(i + 1).drop_last() =~= all.take(i as int));
                assert(all.take(i + 1).last() == all[i as int]);
            }
            self.subscription_table.subscribe_backup(
                copied(pairs[i].0.as_slice()),
                copied(pairs[i].1.as_slice()),
                copied(owner.as_slice()),
                now,
            );
            i += 1;
        }
        assert(all.take(all.len() as int) =~= all);
        write_bool(true)
    }

    /// What the node offers, as a table that clients may find more in later.
    pub fn capabilities(&self, build: &str) -> (r: Vec<u8>)
        ensures
            r@ == msgpack_write(Packed::Table(capability_entries(self.config, build@))),
    {
        broadcast use crate::msgpack::group_item_views;

        let c: &NodeConfig = &self.config;
        let cost: Item = match effective_stamp_cost(c.default_policy.stamp_cost) {
            Some(n) => Item::UInt(n as u64),
            None => Item::Nil,
        };
        let backup: bool = c.primary_node.is_some() || c.secondary_nodes.len() > 0;
        let entries: Vec<(Item, Item)> = vec![
            entry("protocol_version", Item::UInt(1)),
            entry("display_name", Item::Str(c.display_name.as_str().to_owned())),
            entry("build", Item::Str(build.to_owned())),
            entry("subscription", Item::Boolean(c.default_policy.allow_subscription)),
            entry("notify", Item::Boolean(c.default_policy.allow_notify_registration)),
            entry("lxmf_propagation", Item::Boolean(c.lxmf_propagation_enabled)),
            entry("channel_stream", Item::Boolean(true)),
            entry("propagation_stream", Item::Boolean(c.lxmf_propagation_enabled)),
            entry("distro", Item::Boolean(true)),
            entry("backup", Item::Boolean(backup)),
            entry("stamp_cost", cost),
        ];
        assert(entry_views(entries@) =~= capability_entries(self.config, build@));
        write_value(Item::Table(entries))
    }

    /// What the announce of a node tells: the cost of stamps, where it names
    /// one. Nothing comes of an announce of the node itself.
    pub fn heard_node(&self, destination_hash: &[u8], app_data: &[u8]) -> (r: Option<Option<u32>>)
        ensures
            r is None <==> destination_hash@ == Service::Node.hash_of(self.identity_hash@),
            r matches Some(cost) ==> match msgpack_read(app_data@) {
                Some(Packed::Array(items)) => cost == (match crate::announce::announced_number(items, 1) {
                    Some(n) => Some(n as u32),
                    None => None,
                }),
                _ => cost is None,
            },
    {
        let own: Vec<u8> = Service::Node.hash(self.identity_hash.as_slice());
        if same_bytes(own.as_slice(), destination_hash) {
            return None;
        }
        match decode_node_announce(app_data) {
            Some(a) => Some(a.stamp_cost),
            None => Some(None),
        }
    }
}

/// Holding one more keeps what is held, and the one that was asked for is held
/// and fresh.
proof fn lemma_backup_is_held(subs: Seq<Subscription>, subscriber: Seq<u8>, channel: Seq<u8>, owner: Seq<u8>, now: u64)
    ensures
        ({
            let after = with_backup(subs, subscriber, channel, owner, now);
            &&& is_held(after, subscriber, channel, owner, now)
            &&& forall|s: Seq<u8>, c: Seq<u8>| is_held(subs, s, c, owner, now) ==> #[trigger] is_held(
                after,
                s,
                c,
                owner,
                now,
            )
        }),
    decreases subs.len(),
{
    let after = with_backup(subs, subscriber, channel, owner, now);
    if subs.len() == 0 {
        assert(after[0].subscriber == subscriber);
    } else if crate::subscription::is_backup_of(subscriber, channel, owner)(subs[0]) {
        assert(after[0].subscriber == subscriber);
        assert forall|s: Seq<u8>, c: Seq<u8>| is_held(subs, s, c, owner, now) implies #[trigger] is_held(
            after,
            s,
            c,
            owner,
            now,
        ) by {
            let i = choose|i: int| 0 <= i < subs.len() && holds_backup(#[trigger] subs[i], s, c, owner, now);
            if i > 0 {
                assert(after[i] == subs[i]);
            } else {
                assert(holds_backup(after[0], s, c, owner, now));
            }
        }
    } else {
        let rest = subs.skip(1);
        lemma_backup_is_held(rest, subscriber, channel, owner, now);
        let after_rest = with_backup(rest, subscriber, channel, owner, now);
        let k = choose|k: int|
            0 <= k < after_rest.len() && holds_backup(#[trigger] after_rest[k], subscriber, channel, owner, now);
        assert(after[k + 1] == after_rest[k]);
        assert forall|s: Seq<u8>, c: Seq<u8>| is_held(subs, s, c, owner, now) implies #[trigger] is_held(
            after,
            s,
            c,
            owner,
            now,
        ) by {
            let i = choose|i: int| 0 <= i < subs.len() && holds_backup(#[trigger] subs[i], s, c, owner, now);
            if i > 0 {
                assert(rest[i - 1] == subs[i]);
                assert(is_held(rest, s, c, owner, now));
                assert(is_held(after_rest, s, c, owner, now));
                let j = choose|j: int| 0 <= j < after_rest.len() && holds_backup(#[trigger] after_rest[j], s, c, owner, now);
                assert(after[j + 1] == after_rest[j]);
            } else {
                assert(after[0] == subs[0]);
            }
        }
    }
}

/// Whether a subscription is held for `owner` and was refreshed at `now`.
pub open spec fn holds_backup(x: Subscription, subscriber: Seq<u8>, channel: Seq<u8>, owner: Seq<u8>, now: u64) -> bool {
    x.subscriber == subscriber && x.channel == channel && x.owner == Some(owner) && x.last_refreshed == now
}

/// Whether such a subscription is among `subs`.
pub open spec fn is_held(subs: Seq<Subscription>, subscriber: Seq<u8>, channel: Seq<u8>, owner: Seq<u8>, now: u64) -> bool {
    exists|i: int| 0 <= i < subs.len() && holds_backup(#[trigger] subs[i], subscriber, channel, owner, now)
}

/// Every subscription that a node asked to have held is held for it, and is
/// fresh.
pub proof fn law_backups_are_held(
    subs: Seq<Subscription>,
    pairs: Seq<(Seq<u8>, Seq<u8>)>,
    owner: Seq<u8>,
    now: u64,
    k: int,
)
    requires
        0 <= k < pairs.len(),
    ensures
        is_held(with_backups(subs, pairs, owner, now), pairs[k].0, pairs[k].1, owner, now),
    decreases pairs.len(),
{
    let rest = pairs.drop_last();
    let before = with_backups(subs, rest, owner, now);
    lemma_backup_is_held(before, pairs.last().0, pairs.last().1, owner, now);
    if k < rest.len() {
        law_backups_are_held(subs, rest, owner, now, k);
        assert(rest[k] == pairs[k]);
    }
}

/// What a node asks to have held changes nothing but what is held for it: every
/// entry stays in its place with its subscriber, its channel, its owner and the
/// time since which it stands, and what is not held for that node, or was not
/// asked for, is left alone.
pub proof fn law_only_what_was_asked_is_held(
    subs: Seq<Subscription>,
    pairs: Seq<(Seq<u8>, Seq<u8>)>,
    owner: Seq<u8>,
    now: u64,
)
    ensures
        ({
            let after = with_backups(subs, pairs, owner, now);
            &&& subs.len() <= after.len() <= subs.len() + pairs.len()
            &&& forall|i: int|
                0 <= i < subs.len() ==> (#[trigger] after[i]).subscriber == subs[i].subscriber && after[i].channel
                    == subs[i].channel && after[i].owner == subs[i].owner && after[i].added == subs[i].added
            &&& forall|i: int|
                0 <= i < subs.len() && (subs[i].owner != Some(owner) || !pairs.contains(
                    (subs[i].subscriber, subs[i].channel),
                )) ==> #[trigger] after[i] == subs[i]
            &&& forall|i: int|
                subs.len() <= i < after.len() ==> (#[trigger] after[i]).owner == Some(owner) && after[i].last_refreshed
                    == now && pairs.contains((after[i].subscriber, after[i].channel))
        }),
    decreases pairs.len(),
{
    if pairs.len() > 0 {
        let rest = pairs.drop_last();
        let before = with_backups(subs, rest, owner, now);
        let after = with_backups(subs, pairs, owner, now);
        law_only_what_was_asked_is_held(subs, rest, owner, now);
        crate::subscription::law_holding_changes_nothing_else(before, pairs.last().0, pairs.last().1, owner, now);
        assert(pairs[pairs.len() - 1] == pairs.last());
        assert forall|p: (Seq<u8>, Seq<u8>)| rest.contains(p) implies #[trigger] pairs.contains(p) by {
            assert(pairs[rest.index_of(p)] == p);
        }
        crate::subscription::lemma_held_entry_is_new(before, pairs.last().0, pairs.last().1, owner, now);
        assert forall|i: int|
            0 <= i < subs.len() && (subs[i].owner != Some(owner) || !pairs.contains(
                (subs[i].subscriber, subs[i].channel),
            )) implies #[trigger] after[i] == subs[i] by {
            assert(before[i] == subs[i]);
            if before[i].subscriber == pairs.last().0 && before[i].channel == pairs.last().1 && before[i].owner == Some(
                owner,
            ) {
                assert(pairs.last() == (subs[i].subscriber, subs[i].channel));
            }
        }
        assert forall|i: int| subs.len() <= i < after.len() implies (#[trigger] after[i]).owner == Some(owner)
            && after[i].last_refreshed == now && pairs.contains((after[i].subscriber, after[i].channel)) by {
            if i < before.len() {
                assert(before[i].owner == Some(owner));
            } else {
                assert(pairs.last() == (after[i].subscriber, after[i].channel));
            }
        }
    }
}

/// A request to hold subscriptions is granted exactly where it is signed and
/// comes from a node that is trusted: from any, where none is listed.
pub proof fn law_who_may_have_held(config: NodeConfig, signed: Result<Signed, PayloadError>)
    ensures
        signed is Err ==> granted_backups(config, signed) is None,
        signed matches Ok(s) ==> {
            let owner = node_of_key(s.public_key@);
            let trusted = config.trusted_backup_peers@.len() == 0 || exists|i: int|
                0 <= i < config.trusted_backup_peers@.len() && (#[trigger] config.trusted_backup_peers@[i])@ == owner;
            granted_backups(config, signed) == (if trusted {
                pair_list_read(s.value@)
            } else {
                None
            })
        },
{
    if let Ok(s) = signed {
        let owner = node_of_key(s.public_key@);
        let list = views(config.trusted_backup_peers@);
        if list.contains(owner) {
            assert(config.trusted_backup_peers@[list.index_of(owner)]@ == owner);
        }
        if exists|i: int|
            0 <= i < config.trusted_backup_peers@.len() && (#[trigger] config.trusted_backup_peers@[i])@ == owner {
            let i = choose|i: int|
                0 <= i < config.trusted_backup_peers@.len() && (#[trigger] config.trusted_backup_peers@[i])@ == owner;
            assert(list[i] == owner);
        }
    }
}

/// A command counts exactly where it is signed and understood.
pub proof fn law_which_commands_count(signed: Result<Signed, PayloadError>, kind: Option<NotifyCommandKind>)
    ensures
        signed is Err ==> signed_command(signed, kind) is None,
        signed matches Ok(s) ==> (signed_command(signed, kind) matches Some(c) ==> command_of(
            s.value@,
            msgpack_read(s.value@),
            kind,
        ) == Ok::<Command, Seq<char>>(c)),
        signed matches Ok(s) ==> (signed_command(signed, kind) is Some <==> command_of(
            s.value@,
            msgpack_read(s.value@),
            kind,
        ) is Ok),
{
}

/// What a node can do is said under eleven names. What the tiers and the
/// configuration allow is said as it is, and a backup is offered where a node
/// for it is configured.
pub proof fn law_what_a_node_says_of_itself(config: NodeConfig, build: Seq<char>)
    ensures
        ({
            let e = capability_entries(config, build);
            &&& e.len() == 11
            &&& e[0].1 == Packed::UInt(1)
            &&& e[1].1 == Packed::Str(config.display_name@)
            &&& e[2].1 == Packed::Str(build)
            &&& e[3].1 == Packed::Boolean(config.default_policy.allow_subscription)
            &&& e[4].1 == Packed::Boolean(config.default_policy.allow_notify_registration)
            &&& e[5].1 == Packed::Boolean(config.lxmf_propagation_enabled)
            &&& e[7].1 == Packed::Boolean(config.lxmf_propagation_enabled)
            &&& e[9].1 == Packed::Boolean(!(config.primary_node is None && config.secondary_nodes@.len() == 0))
            &&& config.default_policy.stamp_cost == Some(0u32) || config.default_policy.stamp_cost is None ==> e[10].1
                == Packed::Nil
            &&& config.default_policy.stamp_cost is Some && config.default_policy.stamp_cost->0 > 0 ==> e[10].1 == Packed::UInt(
                config.default_policy.stamp_cost->0 as u64,
            )
        }),
{
}

/// A trusted node has what it asks for held, every pair of it, and is answered
/// with yes. Anybody else changes nothing.
pub proof fn law_pushed_backups_are_held(
    node: &mut FedNode,
    signed: Result<Signed, PayloadError>,
    now: u64,
    r: Vec<u8>,
    k: int,
)
    requires
        call_ensures(FedNode::on_backup_push, (node, signed, now), r),
    ensures
        ({
            let owner = node_of_key(signed->Ok_0.public_key@);
            let trusted = signed is Ok && (old(node).config.trusted_backup_peers@.len() == 0 || exists|i: int|
                0 <= i < old(node).config.trusted_backup_peers@.len() && (
                #[trigger] old(node).config.trusted_backup_peers@[i])@ == owner);
            let pairs = pair_list_read(signed->Ok_0.value@);
            &&& !trusted || pairs is None ==> *final(node) == *old(node) && r@ == seq![0xc2u8]
            &&& trusted && pairs is Some ==> r@ == seq![0xc3u8]
            &&& trusted && pairs is Some && 0 <= k < pairs->0.len() ==> exists|i: int|
                0 <= i < final(node).subscription_table@.len() && (
                #[trigger] final(node).subscription_table@[i]).subscriber == pairs->0[k].0
                    && final(node).subscription_table@[i].channel == pairs->0[k].1
                    && final(node).subscription_table@[i].owner == Some(owner)
                    && final(node).subscription_table@[i].last_refreshed == now
            &&& final(node).deferred_queue == old(node).deferred_queue
        }),
{
    law_who_may_have_held(old(node).config, signed);
    if let Some(pairs) = granted_backups(old(node).config, signed) {
        if 0 <= k < pairs.len() {
            let owner = node_of_key(signed->Ok_0.public_key@);
            law_backups_are_held(old(node).subscription_table@, pairs, owner, now, k);
            let after = final(node).subscription_table@;
            let i = choose|i: int|
                0 <= i < after.len() && holds_backup(#[trigger] after[i], pairs[k].0, pairs[k].1, owner, now);
            assert(after[i].subscriber == pairs[k].0);
        }
    }
}

/// The announce of another node tells the cost of its stamps, where it names one,
/// and the node's own tells nothing.
pub proof fn law_what_an_announce_of_a_node_tells(
    node: &FedNode,
    destination_hash: &[u8],
    app_data: &[u8],
    r: Option<Option<u32>>,
)
    requires
        call_ensures(FedNode::heard_node, (node, destination_hash, app_data), r),
    ensures
        r is None <==> destination_hash@ == Service::Node.hash_of(node.identity_hash@),
        r is Some && (msgpack_read(app_data@) matches Some(p) && p is Array && p->Array_0.len() > 1 && p->Array_0[1]
            is UInt && p->Array_0[1]->UInt_0 <= u32::MAX) ==> r->0 == Some(
            msgpack_read(app_data@)->0->Array_0[1]->UInt_0 as u32,
        ),
        r is Some && !(msgpack_read(app_data@) matches Some(p) && p is Array && p->Array_0.len() > 1 && p->Array_0[1]
            is UInt) ==> r->0 is None,
{
}

} // verus!
