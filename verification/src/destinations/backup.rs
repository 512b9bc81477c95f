//! Backup nodes: who holds the subscriptions of this node, and what it does
//! for the subscribers of a node that is gone.
//!
//! A node passes its subscriptions on to one backup node. A node that holds
//! subscriptions of another delivers in its place once that node has not been
//! heard of for a while, and passes those subscriptions on in turn, but never
//! back to the node they came from.
use vstd::prelude::*;
use crate::clock::SECOND;
use crate::config::NodeConfig;
use crate::deferred_queue::{pending_views, waiting_for, Pending, PendingBlob};
use crate::destinations::fed_node::FedNode;
use crate::destinations::publish::with_waiting;
use crate::handoff::registrations_for;
use crate::msgpack::{bool_read, pair_list_read, pair_list_write, pair_views, pairs_fit, read_bool, write_pair_list};
use crate::notify::{of_channel, registration_views, NotifyRegistration};
use crate::octets::{copied, distinct_of, holds, opt_view, same_bytes, views};
use crate::lxmf_propagation::id_queue::IdQueue;
use crate::subscription::{backup_triples_of, is_backup, is_current, triple_views};

verus! {

/// What a node knows of a peer.
pub struct SyncPeer {
    pub destination_hash: Vec<u8>,
    /// Whether the peer is taken to be there.
    pub alive: bool,
    /// When it was last heard of.
    pub last_heard: u64,
}

/// Whether a peer is there.
pub open spec fn is_alive(peers: Seq<SyncPeer>, hash: Seq<u8>) -> bool {
    exists|i: int| 0 <= i < peers.len() && (#[trigger] peers[i]).destination_hash@ == hash && peers[i].alive
}

fn peer_is_alive(peers: &Vec<SyncPeer>, hash: &[u8]) -> (r: bool)
    ensures
        r == is_alive(peers@, hash@),
{
    let mut i: usize = 0;
    while i < peers.len()
        invariant
            0 <= i <= peers@.len(),
            forall|j: int| 0 <= j < i ==> !((#[trigger] peers@[j]).destination_hash@ == hash@ && peers@[j].alive),
        decreases peers@.len() - i,
    {
        if peers[i].alive && same_bytes(peers[i].destination_hash.as_slice(), hash) {
            return true;
        }
        i += 1;
    }
    false
}

/// Whether a node may be the backup node: any may, unless the default tier
/// asks for a trusted one.
pub open spec fn may_be_backup(config: NodeConfig, hash: Seq<u8>) -> bool {
    config.default_policy.trusted_backup_only ==> views(config.trusted_backup_peers@).contains(hash)
}

fn is_allowed(config: &NodeConfig, hash: &[u8]) -> (r: bool)
    ensures
        r == may_be_backup(*config, hash@),
{
    !config.default_policy.trusted_backup_only || holds(config.trusted_backup_peers.as_slice(), hash)
}

/// Whether a node may be the backup node and is there.
pub open spec fn is_fit(config: NodeConfig, peers: Seq<SyncPeer>, hash: Seq<u8>) -> bool {
    may_be_backup(config, hash) && is_alive(peers, hash)
}

fn fits_as_backup(config: &NodeConfig, peers: &Vec<SyncPeer>, hash: &[u8]) -> (r: bool)
    ensures
        r == is_fit(*config, peers@, hash@),
{
    is_allowed(config, hash) && peer_is_alive(peers, hash)
}

/// The nodes that the configuration names, in the order of preference: the
/// first choice, and then the further ones.
pub open spec fn designated(config: NodeConfig) -> Seq<Seq<u8>> {
    match config.primary_node {
        Some(h) => seq![h@] + views(config.secondary_nodes@),
        None => views(config.secondary_nodes@),
    }
}

/// The first of a list that may be the backup node and is there.
pub open spec fn first_fit(list: Seq<Seq<u8>>, config: NodeConfig, peers: Seq<SyncPeer>) -> Option<Seq<u8>>
    decreases list.len(),
{
    if list.len() == 0 {
        None
    } else if is_fit(config, peers, list[0]) {
        Some(list[0])
    } else {
        first_fit(list.skip(1), config, peers)
    }
}

/// The first of a list that may be the backup node.
pub open spec fn first_allowed(list: Seq<Seq<u8>>, config: NodeConfig) -> Option<Seq<u8>>
    decreases list.len(),
{
    if list.len() == 0 {
        None
    } else if may_be_backup(config, list[0]) {
        Some(list[0])
    } else {
        first_allowed(list.skip(1), config)
    }
}

fn find_fit(config: &NodeConfig, peers: &Vec<SyncPeer>) -> (r: Option<Vec<u8>>)
    ensures
        opt_view(r) == first_fit(designated(*config), *config, peers@),
{
    let ghost all = designated(*config);
    let ghost rest = views(config.secondary_nodes@);
    match &config.primary_node {
        Some(h) => {
            assert(all.skip(1) =~= rest);
            if fits_as_backup(config, peers, h.as_slice()) {
                return Some(copied(h.as_slice()));
            }
        },
        None => {},
    }
    let list: &Vec<Vec<u8>> = &config.secondary_nodes;
    let mut i: usize = 0;
    assert(rest.skip(0) =~= rest);
    while i < list.len()
        invariant
            0 <= i <= list@.len(),
            all == designated(*config),
            rest == views(list@),
            first_fit(all, *config, peers@) == first_fit(rest.skip(i as int), *config, peers@),
        decreases list@.len() - i,
    {
        proof {
            assert(rest.skip(i as int)[0] == list@[i as int]@);
            assert(rest.skip(i as int).skip(1) =~= rest.skip(i + 1));
        }
        if fits_as_backup(config, peers, list[i].as_slice()) {
            return Some(copied(list[i].as_slice()));
        }
        i += 1;
    }
    None
}

fn find_allowed(config: &NodeConfig) -> (r: Option<Vec<u8>>)
    ensures
        opt_view(r) == first_allowed(designated(*config), *config),
{
    let ghost all = designated(*config);
    let ghost rest = views(config.secondary_nodes@);
    match &config.primary_node {
        Some(h) => {
            assert(all.skip(1) =~= rest);
            if is_allowed(config, h.as_slice()) {
                return Some(copied(h.as_slice()));
            }
        },
        None => {},
    }
    let list: &Vec<Vec<u8>> = &config.secondary_nodes;
    let mut i: usize = 0;
    assert(rest.skip(0) =~= rest);
    while i < list.len()
        invariant
            0 <= i <= list@.len(),
            all == designated(*config),
            rest == views(list@),
            first_allowed(all, *config) == first_allowed(rest.skip(i as int), *config),
        decreases list@.len() - i,
    {
        proof {
            assert(rest.skip(i as int)[0] == list@[i as int]@);
            assert(rest.skip(i as int).skip(1) =~= rest.skip(i + 1));
        }
        if is_allowed(config, list[i].as_slice()) {
            return Some(copied(list[i].as_slice()));
        }
        i += 1;
    }
    None
}

/// Whether a peer is there and may be the backup node.
pub open spec fn is_candidate(config: NodeConfig, peer: SyncPeer) -> bool {
    peer.alive && may_be_backup(config, peer.destination_hash@)
}

/// The candidate that was heard of last; of several, the last in the list.
pub open spec fn freshest(config: NodeConfig, peers: Seq<SyncPeer>) -> Option<int>
    decreases peers.len(),
{
    if peers.len() == 0 {
        None
    } else {
        let before = freshest(config, peers.drop_last());
        if is_candidate(config, peers.last()) && (before is None || peers[before->0].last_heard
            <= peers.last().last_heard) {
            Some(peers.len() - 1)
        } else {
            before
        }
    }
}

/// What [`freshest`] finds: a candidate, where there is any, such that no
/// candidate was heard of later.
pub proof fn law_freshest_is_heard_last(config: NodeConfig, peers: Seq<SyncPeer>)
    ensures
        match freshest(config, peers) {
            Some(k) => 0 <= k < peers.len() && is_candidate(config, peers[k]) && forall|i: int|
                0 <= i < peers.len() && is_candidate(config, #[trigger] peers[i]) ==> peers[i].last_heard
                    <= peers[k].last_heard,
            None => forall|i: int| 0 <= i < peers.len() ==> !is_candidate(config, #[trigger] peers[i]),
        },
    decreases peers.len(),
{
    if peers.len() > 0 {
        let rest = peers.drop_last();
        law_freshest_is_heard_last(config, rest);
        assert forall|i: int| 0 <= i < rest.len() implies rest[i] == #[trigger] peers[i] by {}
    }
}

fn find_freshest(config: &NodeConfig, peers: &Vec<SyncPeer>) -> (r: Option<usize>)
    ensures
        match r {
            Some(k) => freshest(*config, peers@) == Some(k as int) && k < peers@.len(),
            None => freshest(*config, peers@) is None,
        },
{
    let mut best: Option<usize> = None;
    let mut i: usize = 0;
    assert(peers@.take(0) =~= Seq::empty());
    while i < peers.len()
        invariant
            0 <= i <= peers@.len(),
            match best {
                Some(k) => freshest(*config, peers@.take(i as int)) == Some(k as int) && k < i,
                None => freshest(*config, peers@.take(i as int)) is None,
            },
        decreases peers@.len() - i,
    {
        proof {
            assert(peers@.take(i + 1).drop_last() =~= peers@.take(i as int));
            assert(peers@.take(i + 1).last() == peers@[i as int]);
        }
        if peers[i].alive && is_allowed(config, peers[i].destination_hash.as_slice()) {
            match best {
                None => {
                    best = Some(i);
                },
                Some(k) => {
                    assert(peers@.take(i as int)[k as int] == peers@[k as int]);
                    assert(peers@.take(i + 1)[k as int] == peers@[k as int]);
                    if peers[k].last_heard <= peers[i].last_heard {
                        best = Some(i);
                    }
                },
            }
        }
        i += 1;
    }
    assert(peers@.take(peers@.len() as int) =~= peers@);
    best
}

/// Whether the choice that was made still stands.
pub open spec fn choice_stands(config: NodeConfig, selected: Seq<Seq<u8>>, peers: Seq<SyncPeer>) -> bool {
    selected.len() > 0 && is_fit(config, peers, selected[0])
}

/// The backup node of a node: the first of the designated nodes that is there,
/// else the one that was chosen while it is there, else the freshest peer. Only
/// where nobody is there does a designated node that is gone stay the backup
/// node.
pub open spec fn backup_of(config: NodeConfig, selected: Seq<Seq<u8>>, peers: Seq<SyncPeer>) -> Option<Seq<u8>> {
    if first_fit(designated(config), config, peers) is Some {
        first_fit(designated(config), config, peers)
    } else if choice_stands(config, selected, peers) {
        Some(selected[0])
    } else {
        match freshest(config, peers) {
            Some(k) => Some(peers[k].destination_hash@),
            None => first_allowed(designated(config), config),
        }
    }
}

/// The choice that is kept: it is left alone while a designated node is there
/// or while it stands, and else made anew; there is none where nobody is there.
pub open spec fn selection_of(config: NodeConfig, selected: Seq<Seq<u8>>, peers: Seq<SyncPeer>) -> Seq<Seq<u8>> {
    if first_fit(designated(config), config, peers) is Some || choice_stands(config, selected, peers) {
        selected
    } else {
        match freshest(config, peers) {
            Some(k) => seq![peers[k].destination_hash@],
            None => Seq::empty(),
        }
    }
}

/// What [`first_fit`] and [`first_allowed`] find is in the list and is what was
/// looked for.
proof fn lemma_first_found(list: Seq<Seq<u8>>, config: NodeConfig, peers: Seq<SyncPeer>)
    ensures
        first_fit(list, config, peers) matches Some(h) ==> list.contains(h) && is_fit(config, peers, h),
        first_allowed(list, config) matches Some(h) ==> list.contains(h) && may_be_backup(config, h),
    decreases list.len(),
{
    if list.len() > 0 {
        let rest = list.skip(1);
        lemma_first_found(rest, config, peers);
        assert(list.contains(list[0]));
        assert forall|h: Seq<u8>| rest.contains(h) implies list.contains(h) by {
            let k = rest.index_of(h);
            assert(list[k + 1] == h);
        }
    }
}

/// Where some peer that may be the backup node is there, the backup node is
/// there: no subscription is passed on to a node that is gone while another
/// could take it.
pub proof fn law_backup_is_there(config: NodeConfig, selected: Seq<Seq<u8>>, peers: Seq<SyncPeer>, i: int)
    requires
        0 <= i < peers.len(),
        peers[i].alive,
        may_be_backup(config, peers[i].destination_hash@),
    ensures
        backup_of(config, selected, peers) matches Some(h) && is_alive(peers, h),
{
    lemma_first_found(designated(config), config, peers);
    law_freshest_is_heard_last(config, peers);
    assert(is_candidate(config, peers[i]));
}

/// The backup node is a designated one or a peer that is there, and a trusted one where the default tier asks for that.
pub proof fn law_backup_is_allowed(config: NodeConfig, selected: Seq<Seq<u8>>, peers: Seq<SyncPeer>)
    ensures
        backup_of(config, selected, peers) matches Some(h) ==> may_be_backup(config, h) && (designated(
            config,
        ).contains(h) || is_alive(peers, h)),
{
    lemma_first_found(designated(config), config, peers);
    law_freshest_is_heard_last(config, peers);
}

/// The age at which subscriptions that are held lapse: twice the time after
/// which their owner is taken to be gone, and at least three rounds.
pub open spec fn backup_ttl_of(owner_offline: u64) -> u64 {
    if 2 * owner_offline > u64::MAX {
        u64::MAX
    } else if 2 * owner_offline < 90 * SECOND {
        (90 * SECOND) as u64
    } else {
        (2 * owner_offline) as u64
    }
}

/// The age at which subscriptions that are held lapse.
pub fn backup_ttl(owner_offline: u64) -> (r: u64)
    ensures
        r == backup_ttl_of(owner_offline),
{
    if owner_offline > u64::MAX / 2 {
        u64::MAX
    } else if 2 * owner_offline < 90 * SECOND {
        90 * SECOND
    } else {
        2 * owner_offline
    }
}

/// Whether a node was heard of within `owner_offline`.
pub open spec fn heard_recently(peers: Seq<SyncPeer>, owner: Seq<u8>, owner_offline: u64, now: u64) -> bool {
    exists|i: int|
        0 <= i < peers.len() && (#[trigger] peers[i]).destination_hash@ == owner && peers[i].alive
            && peers[i].last_heard + owner_offline > now
}

fn was_heard_recently(peers: &Vec<SyncPeer>, owner: &[u8], owner_offline: u64, now: u64) -> (r: bool)
    ensures
        r == heard_recently(peers@, owner@, owner_offline, now),
{
    let mut i: usize = 0;
    while i < peers.len()
        invariant
            0 <= i <= peers@.len(),
            forall|j: int|
                0 <= j < i ==> !((#[trigger] peers@[j]).destination_hash@ == owner@ && peers@[j].alive
                    && peers@[j].last_heard + owner_offline > now),
        decreases peers@.len() - i,
    {
        let p: &SyncPeer = &peers[i];
        if p.alive && same_bytes(p.destination_hash.as_slice(), owner) && (p.last_heard > now || now - p.last_heard
            < owner_offline) {
            return true;
        }
        i += 1;
    }
    false
}

/// The test that a subscription is held for an owner.
pub open spec fn held_for(owner: Seq<u8>) -> spec_fn((Seq<u8>, Seq<u8>, Seq<u8>)) -> bool {
    |t: (Seq<u8>, Seq<u8>, Seq<u8>)| t.2 == owner
}

/// The owners of held subscriptions.
pub open spec fn owners_of(entries: Seq<(Seq<u8>, Seq<u8>, Seq<u8>)>) -> Seq<Seq<u8>> {
    entries.map_values(|t: (Seq<u8>, Seq<u8>, Seq<u8>)| t.2)
}

/// The held subscriptions of those of a list of owners who have not been heard
/// of, owner by owner.
pub open spec fn orphaned(
    entries: Seq<(Seq<u8>, Seq<u8>, Seq<u8>)>,
    owners: Seq<Seq<u8>>,
    peers: Seq<SyncPeer>,
    owner_offline: u64,
    now: u64,
) -> Seq<(Seq<u8>, Seq<u8>, Seq<u8>)>
    decreases owners.len(),
{
    if owners.len() == 0 {
        Seq::empty()
    } else {
        let rest = orphaned(entries, owners.drop_last(), peers, owner_offline, now);
        if heard_recently(peers, owners.last(), owner_offline, now) {
            rest
        } else {
            rest + entries.filter(held_for(owners.last()))
        }
    }
}

/// Among the orphans, each owner of the list who is gone has exactly what is held
/// for them, in its order, and an owner who was heard of has nothing. An owner
/// was heard of where some peer of that hash is there and was last heard of less
/// than `owner_offline` ago.
pub proof fn law_silent_owners_are_taken_over(
    entries: Seq<(Seq<u8>, Seq<u8>, Seq<u8>)>,
    owners: Seq<Seq<u8>>,
    peers: Seq<SyncPeer>,
    owner_offline: u64,
    now: u64,
    owner: Seq<u8>,
    mine: spec_fn((Seq<u8>, Seq<u8>, Seq<u8>)) -> bool,
)
    requires
        owners.no_duplicates(),
        forall|t: (Seq<u8>, Seq<u8>, Seq<u8>)| #[trigger] mine(t) <==> t.2 == owner,
    ensures
        orphaned(entries, owners, peers, owner_offline, now).filter(mine) == (if owners.contains(owner) && forall|i: int|
            0 <= i < peers.len() && (#[trigger] peers[i]).destination_hash@ == owner && peers[i].alive
                ==> peers[i].last_heard + owner_offline <= now {
            entries.filter(mine)
        } else {
            Seq::empty()
        }),
    decreases owners.len(),
{
    reveal(Seq::filter);
    if owners.len() > 0 {
        let few = owners.drop_last();
        let last = owners.last();
        let rest = orphaned(entries, few, peers, owner_offline, now);
        law_silent_owners_are_taken_over(entries, few, peers, owner_offline, now, owner, mine);
        assert(few.contains(owner) ==> owner != last) by {
            if few.contains(owner) {
                let k = few.index_of(owner);
                assert(owners[k] == owner);
            }
        }
        assert(owners.contains(owner) <==> few.contains(owner) || owner == last) by {
            if owners.contains(owner) {
                let k = owners.index_of(owner);
                if k < few.len() {
                    assert(few[k] == owner);
                }
            }
            if few.contains(owner) {
                let k = few.index_of(owner);
                assert(owners[k] == owner);
            }
            if owner == last {
                assert(owners[owners.len() - 1] == owner);
            }
        }
        if !heard_recently(peers, last, owner_offline, now) {
            let held = entries.filter(held_for(last));
            Seq::filter_distributes_over_add(rest, held, mine);
            crate::octets::lemma_filter_holds(entries, held_for(last));
            if owner == last {
                crate::octets::lemma_filter_agree(entries, held_for(last), mine);
                assert forall|i: int| 0 <= i < held.len() implies mine(#[trigger] held[i]) by {
                    assert(held.contains(held[i]));
                }
                crate::octets::lemma_filter_all(held, mine);
                assert(Seq::<(Seq<u8>, Seq<u8>, Seq<u8>)>::empty() + held =~= held);
            } else {
                assert forall|i: int| 0 <= i < held.len() implies !mine(#[trigger] held[i]) by {
                    assert(held.contains(held[i]));
                }
                crate::octets::lemma_filter_none(held, mine);
                assert(rest.filter(mine) + Seq::<(Seq<u8>, Seq<u8>, Seq<u8>)>::empty() =~= rest.filter(mine));
            }
        }
    }
}

/// A held subscription is an orphan exactly where no peer that is its owner is
/// there and was last heard of less than `owner_offline` ago.
pub proof fn law_orphans_are_of_silent_owners(
    entries: Seq<(Seq<u8>, Seq<u8>, Seq<u8>)>,
    peers: Seq<SyncPeer>,
    owner_offline: u64,
    now: u64,
    t: (Seq<u8>, Seq<u8>, Seq<u8>),
)
    ensures
        orphaned(entries, distinct_of(owners_of(entries)), peers, owner_offline, now).contains(t)
            <==> entries.contains(t) && forall|i: int|
            0 <= i < peers.len() && (#[trigger] peers[i]).destination_hash@ == t.2 && peers[i].alive
                ==> peers[i].last_heard + owner_offline <= now,
{
    let owners = owners_of(entries);
    let list = distinct_of(owners);
    let all = orphaned(entries, list, peers, owner_offline, now);
    let mine = |x: (Seq<u8>, Seq<u8>, Seq<u8>)| x.2 == t.2;
    crate::octets::law_distinct_of(owners);
    law_silent_owners_are_taken_over(entries, list, peers, owner_offline, now, t.2, mine);
    crate::octets::lemma_filter_holds(all, mine);
    crate::octets::lemma_filter_holds(entries, mine);
    if entries.contains(t) {
        let k = entries.index_of(t);
        assert(owners[k] == t.2);
        assert(owners.contains(t.2));
        assert(list.contains(t.2));
    }
    assert(mine(t));
    assert(all.contains(t) <==> all.filter(mine).contains(t));
    assert(entries.contains(t) <==> entries.filter(mine).contains(t));
}

/// What a round of the backup starts with.
pub struct BackupRound {
    /// The backup node.
    pub backup: Option<Vec<u8>>,
    /// What is to be passed on to it.
    pub push: Vec<(Vec<u8>, Vec<u8>)>,
    /// How many held subscriptions lapsed.
    pub pruned: usize,
    /// The held subscriptions whose owners are gone.
    pub orphans: Vec<(Vec<u8>, Vec<u8>, Vec<u8>)>,
}

/// What became of a held subscription whose owner is gone.
pub struct FailOver {
    /// Whether the node has taken it over.
    pub adopted: bool,
    /// The registrations through which the subscriber is to be woken.
    pub wake: Vec<NotifyRegistration>,
}

/// Blobs of a channel, as they wait.
pub open spec fn channel_blobs(channel: Seq<u8>, blobs: Seq<Seq<u8>>) -> Seq<Pending> {
    blobs.map_values(|b: Seq<u8>| Pending { channel, blob: b, enqueued_at: 0 })
}

impl FedNode {
    /// Settles on the backup node.
    pub fn resolve_backup(&mut self, peers: &Vec<SyncPeer>) -> (r: Option<Vec<u8>>)
        ensures
            *final(self) == (FedNode { selected_backups: final(self).selected_backups, ..*old(self) }),
            opt_view(r) == backup_of(old(self).config, views(old(self).selected_backups@), peers@),
            views(final(self).selected_backups@) == selection_of(
                old(self).config,
                views(old(self).selected_backups@),
                peers@,
            ),
    {
        if let Some(h) = find_fit(&self.config, peers) {
            return Some(h);
        }
        if self.selected_backups.len() > 0 {
            assert(views(self.selected_backups@)[0] == self.selected_backups@[0]@);
            if fits_as_backup(&self.config, peers, self.selected_backups[0].as_slice()) {
                return Some(copied(self.selected_backups[0].as_slice()));
            }
        }
        match find_freshest(&self.config, peers) {
            Some(k) => {
                let hash: Vec<u8> = copied(peers[k].destination_hash.as_slice());
                self.selected_backups = vec![copied(hash.as_slice())];
                assert(views(self.selected_backups@) =~= seq![hash@]);
                Some(hash)
            },
            None => {
                self.selected_backups = Vec::new();
                assert(views(self.selected_backups@) =~= Seq::empty());
                find_allowed(&self.config)
            },
        }
    }

    fn find_orphans(&self, peers: &Vec<SyncPeer>, now: u64) -> (r: Vec<(Vec<u8>, Vec<u8>, Vec<u8>)>)
        ensures
            ({
                let held = backup_triples_of(self.subscription_table@.filter(is_backup()));
                triple_views(r@) == orphaned(
                    held,
                    distinct_of(owners_of(held)),
                    peers@,
                    self.config.owner_offline,
                    now,
                )
            }),
    {
        let entries: Vec<(Vec<u8>, Vec<u8>, Vec<u8>)> = self.subscription_table.backup_entries_for_tick();
        let ghost held = triple_views(entries@);
        let mut seen: IdQueue = IdQueue::new();
        let mut i: usize = 0;
        let ghost owners = owners_of(held);
        assert(distinct_of(owners.take(0)) =~= Seq::empty());
        while i < entries.len()
            invariant
                0 <= i <= entries@.len(),
                held == triple_views(entries@),
                owners == owners_of(held),
                seen.wf(),
                seen@ == distinct_of(owners.take(i as int)),
            decreases entries@.len() - i,
        {
            proof {
                assert(owners.take(i + 1).drop_last() =~= owners.take(i as int));
                assert(owners.take(i + 1).last() == entries@[i as int].2@);
            }
            seen.push_unique(copied(entries[i].2.as_slice()));
            i += 1;
        }
        assert(owners.take(owners.len() as int) =~= owners);
        let list: Vec<Vec<u8>> = seen.to_vec();
        let ghost names = views(list@);
        let offline: u64 = self.config.owner_offline;
        let mut out: Vec<(Vec<u8>, Vec<u8>, Vec<u8>)> = Vec::new();
        let mut k: usize = 0;
        assert(triple_views(out@) =~= Seq::empty());
        while k < list.len()
            invariant
                0 <= k <= list@.len(),
                held == triple_views(entries@),
                names == views(list@),
                triple_views(out@) == orphaned(held, names.take(k as int), peers@, offline, now),
            decreases list@.len() - k,
        {
            let owner: &Vec<u8> = &list[k];
            let ghost before = triple_views(out@);
            let ghost test = held_for(owner@);
            proof {
                assert(names.take(k + 1).drop_last() =~= names.take(k as int));
                assert(names.take(k + 1).last() == owner@);
            }
            if !was_heard_recently(peers, owner.as_slice(), offline, now) {
                let mut j: usize = 0;
                proof {
                    crate::octets::lemma_filter_ends(held, test);
                    assert(before + Seq::<(Seq<u8>, Seq<u8>, Seq<u8>)>::empty() =~= before);
                }
                while j < entries.len()
                    invariant
                        0 <= j <= entries@.len(),
                        held == triple_views(entries@),
                        test == held_for(owner@),
                        triple_views(out@) == before + held.take(j as int).filter(test),
                    decreases entries@.len() - j,
                {
                    proof {
                        crate::octets::lemma_filter_step(held, test, j as int);
                        assert(held[j as int] == (entries@[j as int].0@, entries@[j as int].1@, entries@[j as int].2@));
                    }
                    if same_bytes(entries[j].2.as_slice(), owner.as_slice()) {
                        let ghost was = triple_views(out@);
                        let item: (Vec<u8>, Vec<u8>, Vec<u8>) = (
                            copied(entries[j].0.as_slice()),
                            copied(entries[j].1.as_slice()),
                            copied(entries[j].2.as_slice()),
                        );
                        out.push(item);
                        proof {
                            assert(triple_views(out@) =~= was.push((item.0@, item.1@, item.2@)));
                            assert(before + held.take(j as int).filter(test).push(held[j as int]) =~= (before
                                + held.take(j as int).filter(test)).push(held[j as int]));
                        }
                    }
                    j += 1;
                }
                proof {
                    crate::octets::lemma_filter_ends(held, test);
                }
            }
            k += 1;
        }
        assert(names.take(names.len() as int) =~= names);
        out
    }

    /// Starts a round of the backup: settles on the backup node, takes out
    /// what is to be passed on to it where there is one, drops held
    /// subscriptions that lapsed, and finds those whose owners are gone.
    pub fn tick_backup_delivery(&mut self, peers: &Vec<SyncPeer>, now: u64) -> (r: BackupRound)
        ensures
            *final(self) == (FedNode {
                selected_backups: final(self).selected_backups,
                pending_backup_pushes: final(self).pending_backup_pushes,
                subscription_table: final(self).subscription_table,
                ..*old(self)
            }),
            opt_view(r.backup) == backup_of(old(self).config, views(old(self).selected_backups@), peers@),
            views(final(self).selected_backups@) == selection_of(
                old(self).config,
                views(old(self).selected_backups@),
                peers@,
            ),
            r.backup is Some ==> r.push == old(self).pending_backup_pushes && final(self).pending_backup_pushes@.len()
                == 0,
            r.backup is None ==> r.push@.len() == 0 && final(self).pending_backup_pushes
                == old(self).pending_backup_pushes,
            final(self).subscription_table@ == old(self).subscription_table@.filter(
                is_current(now, backup_ttl_of(old(self).config.owner_offline)),
            ),
            r.pruned == old(self).subscription_table@.len() - final(self).subscription_table@.len(),
            ({
                let held = backup_triples_of(final(self).subscription_table@.filter(is_backup()));
                triple_views(r.orphans@) == orphaned(
                    held,
                    distinct_of(owners_of(held)),
                    peers@,
                    old(self).config.owner_offline,
                    now,
                )
            }),
    {
        let backup: Option<Vec<u8>> = self.resolve_backup(peers);
        let mut push: Vec<(Vec<u8>, Vec<u8>)> = Vec::new();
        if backup.is_some() {
            std::mem::swap(&mut self.pending_backup_pushes, &mut push);
        }
        let ttl: u64 = backup_ttl(self.config.owner_offline);
        let pruned: usize = self.subscription_table.prune_stale_backups(ttl, now);
        let orphans: Vec<(Vec<u8>, Vec<u8>, Vec<u8>)> = self.find_orphans(peers, now);
        BackupRound { backup, push, pruned, orphans }
    }

    /// Whether the blobs of the channel are needed to take a held subscription
    /// over: they are not where something waits for the subscriber already.
    pub fn needs_blobs(&self, subscriber_hash: &[u8]) -> (r: bool)
        ensures
            r == (waiting_for(self.deferred_queue@, subscriber_hash@).len() == 0),
    {
        !self.deferred_queue.has_pending(subscriber_hash)
    }

    /// Takes a held subscription over in the place of an owner who is gone:
    /// the blobs of the channel wait for the subscriber, who is woken. Where
    /// something waits already, nothing more does; and where there are no
    /// blobs, the subscription is not taken over.
    pub fn fail_over(&mut self, subscriber_hash: &[u8], channel_hash: &[u8], blobs: &Vec<Vec<u8>>, now: u64) -> (r:
        FailOver)
        ensures
            *final(self) == (FedNode { deferred_queue: final(self).deferred_queue, ..*old(self) }),
            final(self).deferred_queue.global_limit == old(self).deferred_queue.global_limit,
            ({
                let waits = waiting_for(old(self).deferred_queue@, subscriber_hash@).len() > 0;
                let delivers = !waits && blobs@.len() > 0;
                &&& r.adopted == (waits || blobs@.len() > 0)
                &&& !delivers ==> final(self).deferred_queue@ == old(self).deferred_queue@ && r.wake@.len() == 0
                &&& delivers ==> final(self).deferred_queue@ == with_waiting(
                    old(self).deferred_queue@,
                    subscriber_hash@,
                    channel_blobs(channel_hash@, views(blobs@)),
                    old(self).config.spec_policy_for(subscriber_hash@).deferred_queue_limit as nat,
                    old(self).deferred_queue.global_limit as nat,
                    now,
                )
                &&& delivers ==> registration_views(r.wake@) == old(self).notify_registry@.filter(
                    of_channel(subscriber_hash@, Some(channel_hash@)),
                )
            }),
    {
        if self.deferred_queue.has_pending(subscriber_hash) {
            return FailOver { adopted: true, wake: Vec::new() };
        }
        if blobs.len() == 0 {
            return FailOver { adopted: false, wake: Vec::new() };
        }
        let ghost all = channel_blobs(channel_hash@, views(blobs@));
        let mut list: Vec<PendingBlob> = Vec::new();
        let mut i: usize = 0;
        assert(pending_views(list@) =~= all.take(0));
        while i < blobs.len()
            invariant
                0 <= i <= blobs@.len(),
                all == channel_blobs(channel_hash@, views(blobs@)),
                pending_views(list@) == all.take(i as int),
            decreases blobs@.len() - i,
        {
            let ghost was = pending_views(list@);
            let item: PendingBlob = PendingBlob {
                channel_hash: copied(channel_hash),
                blob: copied(blobs[i].as_slice()),
                enqueued_at: 0,
            };
            list.push(item);
            proof {
                assert(item@ == all[i as int]);
                assert(pending_views(list@) =~= was.push(item@));
                assert(all.take(i + 1) =~= all.take(i as int).push(all[i as int]));
            }
            i += 1;
        }
        assert(all.take(all.len() as int) =~= all);
        self.requeue_deferred(subscriber_hash, list, now);
        let wake: Vec<NotifyRegistration> = registrations_for(
            &self.notify_registry,
            subscriber_hash,
            Some(channel_hash),
        );
        FailOver { adopted: true, wake }
    }

    /// Lets subscriptions wait to be passed on again.
    pub fn requeue_backup_pairs(&mut self, pairs: Vec<(Vec<u8>, Vec<u8>)>)
        ensures
            *final(self) == (FedNode { pending_backup_pushes: final(self).pending_backup_pushes, ..*old(self) }),
            final(self).pending_backup_pushes@ == old(self).pending_backup_pushes@ + pairs@,
    {
        let mut more: Vec<(Vec<u8>, Vec<u8>)> = pairs;
        self.pending_backup_pushes.append(&mut more);
    }
}

/// The subscriptions that are passed on out of those that were taken over:
/// all but those that would go back to their owner.
pub open spec fn chain_extension(adopted: Seq<(Seq<u8>, Seq<u8>, Seq<u8>)>, backup: Seq<u8>) -> Seq<(Seq<u8>, Seq<u8>)>
    decreases adopted.len(),
{
    if adopted.len() == 0 {
        Seq::empty()
    } else {
        let rest = chain_extension(adopted.drop_last(), backup);
        if adopted.last().2 == backup {
            rest
        } else {
            rest.push((adopted.last().0, adopted.last().1))
        }
    }
}

/// The subscriptions that are passed on, as [`chain_extension`] says.
pub fn adopted_pairs_for_chain_extension(adopted: Vec<(Vec<u8>, Vec<u8>, Vec<u8>)>, backup_hash: &[u8]) -> (r: Vec<
    (Vec<u8>, Vec<u8>),
>)
    ensures
        pair_views(r@) == chain_extension(triple_views(adopted@), backup_hash@),
{
    let ghost all = triple_views(adopted@);
    let mut out: Vec<(Vec<u8>, Vec<u8>)> = Vec::new();
    assert(pair_views(out@) =~= Seq::empty());
    for t in it: adopted
        invariant
            it.seq() == adopted@,
            all == triple_views(adopted@),
            pair_views(out@) == chain_extension(all.take(it.index()), backup_hash@),
    {
        let ghost i = it.index();
        proof {
            assert(all.take(i + 1).drop_last() =~= all.take(i));
            assert(all.take(i + 1).last() == (t.0@, t.1@, t.2@));
        }
        let (subscriber, channel, owner) = t;
        if !same_bytes(owner.as_slice(), backup_hash) {
            let ghost was = pair_views(out@);
            let pair: (Vec<u8>, Vec<u8>) = (subscriber, channel);
            out.push(pair);
            assert(pair_views(out@) =~= was.push((pair.0@, pair.1@)));
        }
    }
    assert(all.take(all.len() as int) =~= all);
    out
}

/// Nothing that was taken over goes back to its owner, and everything else is
/// passed on.
pub proof fn law_nothing_bounces_back(adopted: Seq<(Seq<u8>, Seq<u8>, Seq<u8>)>, backup: Seq<u8>, pair: (Seq<u8>, Seq<u8>))
    ensures
        chain_extension(adopted, backup).contains(pair) <==> exists|i: int|
            0 <= i < adopted.len() && (#[trigger] adopted[i]).0 == pair.0 && adopted[i].1 == pair.1 && adopted[i].2
                != backup,
    decreases adopted.len(),
{
    if adopted.len() > 0 {
        let rest = adopted.drop_last();
        law_nothing_bounces_back(rest, backup, pair);
        let c = chain_extension(adopted, backup);
        let cr = chain_extension(rest, backup);
        if c.contains(pair) {
            let k = c.index_of(pair);
            if k < cr.len() {
                assert(cr[k] == pair);
                assert(cr.contains(pair));
                let i = choose|i: int|
                    0 <= i < rest.len() && (#[trigger] rest[i]).0 == pair.0 && rest[i].1 == pair.1 && rest[i].2
                        != backup;
                assert(adopted[i] == rest[i]);
            } else {
                assert(adopted[adopted.len() - 1].0 == pair.0);
            }
        }
        if exists|i: int|
            0 <= i < adopted.len() && (#[trigger] adopted[i]).0 == pair.0 && adopted[i].1 == pair.1 && adopted[i].2
                != backup {
            let i = choose|i: int|
                0 <= i < adopted.len() && (#[trigger] adopted[i]).0 == pair.0 && adopted[i].1 == pair.1 && adopted[i].2
                    != backup;
            if i < rest.len() {
                assert(rest[i] == adopted[i]);
                assert(cr.contains(pair));
                let k = cr.index_of(pair);
                assert(c[k] == pair);
            } else {
                assert(c[c.len() - 1] == pair);
            }
        }
    }
}

/// What is signed where subscriptions are passed on to a backup node.
pub fn encode_backup_pairs(pairs: &Vec<(Vec<u8>, Vec<u8>)>) -> (r: Vec<u8>)
    ensures
        r@ == pair_list_write(pair_views(pairs@)),
        pairs_fit(pair_views(pairs@)) ==> pair_list_read(r@) == Some(pair_views(pairs@)),
{
    write_pair_list(pairs)
}

/// Whether the backup node took what was passed on to it: its response is a
/// yes.
pub fn backup_accepted(response: Option<&[u8]>) -> (r: bool)
    ensures
        r == (response is Some && bool_read(response->0@) == Some(true)),
{
    match response {
        Some(raw) => match read_bool(raw) {
            Some(b) => b,
            None => false,
        },
        None => false,
    }
}

/// How far the way to a peer was found.
#[derive(Clone, Copy, Debug, PartialEq, Eq, Structural)]
pub enum Reach {
    /// No link to the peer can be had for now.
    NotReady,
    /// The peer's identity is not known.
    UnknownIdentity,
    /// Its destination cannot be addressed.
    NoDestination,
    /// A link could not be made.
    NoLink,
    /// A link is being opened.
    Opening,
}

/// What is to be done for subscriptions that are passed on to a backup node,
/// given how far the way to it was found.
pub struct PushPlan {
    /// Whether they wait for the next round.
    pub requeue: bool,
    /// Whether a path is to be asked for.
    pub request_path: bool,
}

/// Only where a link is being opened do subscriptions not wait for the next
/// round, and a path is asked for where the identity is not known.
pub fn plan_backup_push(reach: Reach) -> (r: PushPlan)
    ensures
        r.requeue == (reach != Reach::Opening),
        r.request_path == (reach == Reach::UnknownIdentity),
{
    PushPlan {
        requeue: !matches!(reach, Reach::Opening),
        request_path: matches!(reach, Reach::UnknownIdentity),
    }
}

/// The designated nodes are the first choice, where there is one, and then the
/// further ones in their order.
pub proof fn law_designated_nodes_in_order(config: NodeConfig)
    ensures
        config.primary_node matches Some(h) ==> {
            &&& designated(config).len() == config.secondary_nodes@.len() + 1
            &&& designated(config)[0] == h@
            &&& forall|i: int|
                0 <= i < config.secondary_nodes@.len() ==> designated(config)[i + 1] == (
                #[trigger] config.secondary_nodes@[i])@
        },
        config.primary_node is None ==> {
            &&& designated(config).len() == config.secondary_nodes@.len()
            &&& forall|i: int|
                0 <= i < config.secondary_nodes@.len() ==> designated(config)[i] == (
                #[trigger] config.secondary_nodes@[i])@
        },
{
}

proof fn lemma_first_is_found(list: Seq<Seq<u8>>, config: NodeConfig, peers: Seq<SyncPeer>, k: int)
    requires
        0 <= k <= list.len(),
        forall|j: int| 0 <= j < k ==> !is_fit(config, peers, #[trigger] list[j]),
        k < list.len() ==> is_fit(config, peers, list[k]),
    ensures
        first_fit(list, config, peers) == (if k < list.len() {
            Some(list[k])
        } else {
            None
        }),
    decreases list.len(),
{
    if list.len() > 0 && k > 0 {
        let rest = list.skip(1);
        assert(!is_fit(config, peers, list[0]));
        assert forall|j: int| 0 <= j < k - 1 implies !is_fit(config, peers, #[trigger] rest[j]) by {
            assert(rest[j] == list[j + 1]);
        }
        lemma_first_is_found(rest, config, peers, k - 1);
    }
}

proof fn lemma_first_allowed_is_found(list: Seq<Seq<u8>>, config: NodeConfig, k: int)
    requires
        0 <= k <= list.len(),
        forall|j: int| 0 <= j < k ==> !may_be_backup(config, #[trigger] list[j]),
        k < list.len() ==> may_be_backup(config, list[k]),
    ensures
        first_allowed(list, config) == (if k < list.len() {
            Some(list[k])
        } else {
            None
        }),
    decreases list.len(),
{
    if list.len() > 0 && k > 0 {
        let rest = list.skip(1);
        assert(!may_be_backup(config, list[0]));
        assert forall|j: int| 0 <= j < k - 1 implies !may_be_backup(config, #[trigger] rest[j]) by {
            assert(rest[j] == list[j + 1]);
        }
        lemma_first_allowed_is_found(rest, config, k - 1);
    }
}

/// The first designated node that is there is the backup node, whoever else is
/// there and whoever was chosen, and the choice is left alone. Where the default
/// tier asks for a trusted node, only such ones count.
pub proof fn law_designated_node_comes_first(
    config: NodeConfig,
    selected: Seq<Seq<u8>>,
    peers: Seq<SyncPeer>,
    k: int,
    counts: spec_fn(Seq<u8>) -> bool,
)
    requires
        forall|h: Seq<u8>| #[trigger]
            counts(h) <==> (config.default_policy.trusted_backup_only ==> exists|t: int|
                0 <= t < config.trusted_backup_peers@.len() && (#[trigger] config.trusted_backup_peers@[t])@ == h)
                && exists|i: int|
                0 <= i < peers.len() && (#[trigger] peers[i]).alive && peers[i].destination_hash@ == h,
        0 <= k < designated(config).len(),
        counts(designated(config)[k]),
        forall|j: int| 0 <= j < k ==> !counts(#[trigger] designated(config)[j]),
    ensures
        backup_of(config, selected, peers) == Some(designated(config)[k]),
        selection_of(config, selected, peers) == selected,
{
    lemma_counts(config, peers, counts);
    assert(is_fit(config, peers, designated(config)[k]));
    assert forall|j: int| 0 <= j < k implies !is_fit(config, peers, #[trigger] designated(config)[j]) by {
        assert(!counts(designated(config)[j]));
    }
    lemma_first_is_found(designated(config), config, peers, k);
}

proof fn lemma_counts(config: NodeConfig, peers: Seq<SyncPeer>, counts: spec_fn(Seq<u8>) -> bool)
    requires
        forall|h: Seq<u8>| #[trigger]
            counts(h) <==> (config.default_policy.trusted_backup_only ==> exists|t: int|
                0 <= t < config.trusted_backup_peers@.len() && (#[trigger] config.trusted_backup_peers@[t])@ == h)
                && exists|i: int|
                0 <= i < peers.len() && (#[trigger] peers[i]).alive && peers[i].destination_hash@ == h,
    ensures
        forall|h: Seq<u8>| #[trigger] is_fit(config, peers, h) <==> counts(h),
{
    assert forall|h: Seq<u8>| #[trigger] is_fit(config, peers, h) <==> counts(h) by {
        let trusted = views(config.trusted_backup_peers@);
        assert(trusted.contains(h) <==> exists|t: int|
            0 <= t < config.trusted_backup_peers@.len() && (#[trigger] config.trusted_backup_peers@[t])@ == h) by {
            if trusted.contains(h) {
                let t = trusted.index_of(h);
                assert(config.trusted_backup_peers@[t]@ == h);
            }
            if exists|t: int|
                0 <= t < config.trusted_backup_peers@.len() && (#[trigger] config.trusted_backup_peers@[t])@ == h {
                let t = choose|t: int|
                    0 <= t < config.trusted_backup_peers@.len() && (#[trigger] config.trusted_backup_peers@[t])@ == h;
                assert(trusted[t] == h);
            }
        }
        if is_alive(peers, h) {
            let i = choose|i: int|
                0 <= i < peers.len() && (#[trigger] peers[i]).destination_hash@ == h && peers[i].alive;
            assert(peers[i].alive && peers[i].destination_hash@ == h);
        }
        if exists|i: int| 0 <= i < peers.len() && (#[trigger] peers[i]).alive && peers[i].destination_hash@ == h {
            let i = choose|i: int|
                0 <= i < peers.len() && (#[trigger] peers[i]).alive && peers[i].destination_hash@ == h;
            assert(peers[i].destination_hash@ == h && peers[i].alive);
        }
    }
}

/// Where no designated node counts, the peer that was chosen stays the backup
/// node as long as it counts. Where it does not, the peer that counts and was
/// heard of last becomes it, the last in the list among several, and is the new
/// choice.
pub proof fn law_choice_stands_and_is_made_anew(
    config: NodeConfig,
    selected: Seq<Seq<u8>>,
    peers: Seq<SyncPeer>,
    k: int,
    counts: spec_fn(Seq<u8>) -> bool,
)
    requires
        forall|h: Seq<u8>| #[trigger]
            counts(h) <==> (config.default_policy.trusted_backup_only ==> exists|t: int|
                0 <= t < config.trusted_backup_peers@.len() && (#[trigger] config.trusted_backup_peers@[t])@ == h)
                && exists|i: int|
                0 <= i < peers.len() && (#[trigger] peers[i]).alive && peers[i].destination_hash@ == h,
        forall|j: int| 0 <= j < designated(config).len() ==> !counts(#[trigger] designated(config)[j]),
        0 <= k < peers.len(),
        peers[k].alive,
        counts(peers[k].destination_hash@),
        forall|i: int|
            0 <= i < peers.len() && (#[trigger] peers[i]).alive && counts(peers[i].destination_hash@)
                ==> peers[i].last_heard < peers[k].last_heard || (peers[i].last_heard == peers[k].last_heard && i <= k),
    ensures
        selected.len() > 0 && counts(selected[0]) ==> backup_of(config, selected, peers) == Some(selected[0])
            && selection_of(config, selected, peers) == selected,
        !(selected.len() > 0 && counts(selected[0])) ==> backup_of(config, selected, peers) == Some(
            peers[k].destination_hash@,
        ) && selection_of(config, selected, peers) == seq![peers[k].destination_hash@],
{
    lemma_counts(config, peers, counts);
    let list = designated(config);
    assert forall|j: int| 0 <= j < list.len() implies !is_fit(config, peers, #[trigger] list[j]) by {
        assert(!counts(list[j]));
    }
    lemma_first_is_found(list, config, peers, list.len() as int);
    law_freshest_is_heard_last(config, peers);
    lemma_freshest_is_last(config, peers);
    assert(is_fit(config, peers, peers[k].destination_hash@));
    assert(is_candidate(config, peers[k]));
    let f = freshest(config, peers)->0;
    assert(is_fit(config, peers, peers[f].destination_hash@)) by {
        assert(peers[f].destination_hash@ == peers[f].destination_hash@ && peers[f].alive);
    }
    assert(counts(peers[f].destination_hash@));
    assert(f == k);
}

proof fn lemma_freshest_is_last(config: NodeConfig, peers: Seq<SyncPeer>)
    ensures
        freshest(config, peers) matches Some(k) ==> forall|i: int|
            0 <= i < peers.len() && is_candidate(config, #[trigger] peers[i]) && peers[i].last_heard
                == peers[k].last_heard ==> i <= k,
    decreases peers.len(),
{
    if peers.len() > 0 {
        let rest = peers.drop_last();
        lemma_freshest_is_last(config, rest);
        law_freshest_is_heard_last(config, rest);
        law_freshest_is_heard_last(config, peers);
        assert forall|i: int| 0 <= i < rest.len() implies rest[i] == #[trigger] peers[i] by {}
    }
}

/// Where no peer counts, the first designated node that may be the backup node
/// is it, or nobody, and no choice is kept.
pub proof fn law_designated_node_is_the_last_resort(
    config: NodeConfig,
    selected: Seq<Seq<u8>>,
    peers: Seq<SyncPeer>,
    k: int,
    may: spec_fn(Seq<u8>) -> bool,
)
    requires
        forall|h: Seq<u8>| #[trigger]
            may(h) <==> (config.default_policy.trusted_backup_only ==> exists|t: int|
                0 <= t < config.trusted_backup_peers@.len() && (#[trigger] config.trusted_backup_peers@[t])@ == h),
        forall|i: int|
            0 <= i < peers.len() ==> !((#[trigger] peers[i]).alive && may(peers[i].destination_hash@)),
        0 <= k <= designated(config).len(),
        forall|j: int| 0 <= j < k ==> !may(#[trigger] designated(config)[j]),
        k < designated(config).len() ==> may(designated(config)[k]),
    ensures
        selection_of(config, selected, peers) == Seq::<Seq<u8>>::empty(),
        backup_of(config, selected, peers) == (if k < designated(config).len() {
            Some(designated(config)[k])
        } else {
            None
        }),
{
    let list = designated(config);
    assert forall|h: Seq<u8>| #[trigger] may_be_backup(config, h) <==> may(h) by {
        let trusted = views(config.trusted_backup_peers@);
        if trusted.contains(h) {
            let t = trusted.index_of(h);
            assert(config.trusted_backup_peers@[t]@ == h);
        }
        if exists|t: int|
            0 <= t < config.trusted_backup_peers@.len() && (#[trigger] config.trusted_backup_peers@[t])@ == h {
            let t = choose|t: int|
                0 <= t < config.trusted_backup_peers@.len() && (#[trigger] config.trusted_backup_peers@[t])@ == h;
            assert(trusted[t] == h);
        }
    }
    assert forall|h: Seq<u8>| !(#[trigger] is_fit(config, peers, h)) by {
        if is_fit(config, peers, h) {
            assert(may_be_backup(config, h));
            let i = choose|i: int|
                0 <= i < peers.len() && (#[trigger] peers[i]).destination_hash@ == h && peers[i].alive;
            assert(peers[i].alive && may(peers[i].destination_hash@));
        }
    }
    lemma_first_is_found(list, config, peers, list.len() as int);
    law_freshest_is_heard_last(config, peers);
    if let Some(f) = freshest(config, peers) {
        assert(is_candidate(config, peers[f]));
        assert(may(peers[f].destination_hash@));
    }
    assert forall|j: int| 0 <= j < k implies !may_be_backup(config, #[trigger] list[j]) by {
        assert(!may(list[j]));
    }
    lemma_first_allowed_is_found(list, config, k);
}

/// What is held lapses no sooner than twice the time after which its owner is
/// gone, nor than 90 seconds, and no later than the longer of these.
pub proof fn law_backup_age(owner_offline: u64)
    ensures
        backup_ttl_of(owner_offline) >= 90_000_000_000,
        backup_ttl_of(owner_offline) >= 2 * owner_offline || backup_ttl_of(owner_offline) == u64::MAX,
        backup_ttl_of(owner_offline) <= 2 * owner_offline || backup_ttl_of(owner_offline) <= 90_000_000_000,
{
}

/// The subscriptions that are passed on out of two lists are those of each of
/// them, one after the other, so that each is passed on once and in its order.
pub proof fn law_passed_on_lists_add_up(
    a: Seq<(Seq<u8>, Seq<u8>, Seq<u8>)>,
    b: Seq<(Seq<u8>, Seq<u8>, Seq<u8>)>,
    backup: Seq<u8>,
)
    ensures
        chain_extension(a + b, backup) == chain_extension(a, backup) + chain_extension(b, backup),
        chain_extension(a, backup).len() <= a.len(),
    decreases b.len(), a.len(),
{
    if a.len() > 0 && b.len() == 0 {
        law_passed_on_lists_add_up(a.drop_last(), b, backup);
    }
    if b.len() == 0 {
        assert(a + b =~= a);
        assert(chain_extension(a, backup) + chain_extension(b, backup) =~= chain_extension(a, backup));
    } else {
        law_passed_on_lists_add_up(a, b.drop_last(), backup);
        assert((a + b).drop_last() =~= a + b.drop_last());
        assert((a + b).last() == b.last());
        assert(chain_extension(a + b, backup) =~= chain_extension(a, backup) + chain_extension(b, backup));
    }
}

/// The blobs of a channel are handed over in their order, with the channel.
pub proof fn law_blobs_of_a_channel_in_order(channel: Seq<u8>, blobs: Seq<Seq<u8>>)
    ensures
        channel_blobs(channel, blobs).len() == blobs.len(),
        forall|i: int|
            0 <= i < blobs.len() ==> (#[trigger] channel_blobs(channel, blobs)[i]).blob == blobs[i] && channel_blobs(
                channel,
                blobs,
            )[i].channel == channel,
{
}

/// A round of the backup finds exactly the subscriptions that are held for an
/// owner who is gone: that did not lapse, and whose owner is no peer that is
/// there and was last heard of less than the time after which it counts as gone.
pub proof fn law_round_finds_every_orphan(
    node: &mut FedNode,
    peers: &Vec<SyncPeer>,
    now: u64,
    r: BackupRound,
    t: (Seq<u8>, Seq<u8>, Seq<u8>),
)
    requires
        call_ensures(FedNode::tick_backup_delivery, (node, peers, now), r),
    ensures
        triple_views(r.orphans@).contains(t) <==> {
            &&& exists|k: int|
                0 <= k < final(node).subscription_table@.len() && (#[trigger] final(node).subscription_table@[k]).subscriber == t.0 && final(node).subscription_table@[k].channel == t.1
                    && final(node).subscription_table@[k].owner == Some(t.2)
            &&& forall|i: int|
                0 <= i < peers@.len() && (#[trigger] peers@[i]).destination_hash@ == t.2 && peers@[i].alive
                    ==> peers@[i].last_heard + old(node).config.owner_offline <= now
        },
{
    let held = backup_triples_of(final(node).subscription_table@.filter(is_backup()));
    law_orphans_are_of_silent_owners(held, peers@, old(node).config.owner_offline, now, t);
    crate::subscription::law_held_subscriptions_have_owners(final(node).subscription_table@, t);
}

/// A round drops the held subscriptions that were not refreshed for twice the
/// time after which an owner is gone, or for 90 seconds where that is longer, and
/// no other. What waits for a backup node is passed on where there is one, and
/// otherwise waits on.
pub proof fn law_round_drops_what_lapsed(
    node: &mut FedNode,
    peers: &Vec<SyncPeer>,
    now: u64,
    r: BackupRound,
    s: crate::subscription::Subscription,
)
    requires
        call_ensures(FedNode::tick_backup_delivery, (node, peers, now), r),
        old(node).config.owner_offline <= 4_611_686_018_427_387_903,
    ensures
        final(node).subscription_table@.contains(s) <==> old(node).subscription_table@.contains(s) && (s.owner is None
            || now - s.last_refreshed <= (if 2 * old(node).config.owner_offline > 90_000_000_000 {
            2 * old(node).config.owner_offline
        } else {
            90_000_000_000
        })),
        r.backup is Some ==> r.push@ == old(node).pending_backup_pushes@ && final(node).pending_backup_pushes@.len()
            == 0,
        r.backup is None ==> r.push@.len() == 0 && final(node).pending_backup_pushes@ == old(node).pending_backup_pushes@,
        final(node).deferred_queue == old(node).deferred_queue,
{
    let ttl = backup_ttl_of(old(node).config.owner_offline);
    crate::octets::lemma_filter_holds(old(node).subscription_table@, is_current(now, ttl));
    law_backup_age(old(node).config.owner_offline);
}

/// A subscription is taken over where something waits for the subscriber, or
/// there are blobs. Blobs are let wait, and relays woken, only where nothing
/// waits yet.
pub proof fn law_when_a_subscription_is_taken_over(
    node: &mut FedNode,
    subscriber: &[u8],
    channel: &[u8],
    blobs: &Vec<Vec<u8>>,
    now: u64,
    r: FailOver,
    reg: crate::notify::Registration,
)
    requires
        call_ensures(FedNode::fail_over, (node, subscriber, channel, blobs, now), r),
    ensures
        ({
            let waits = exists|e: crate::deferred_queue::Deferred| #[trigger]
                old(node).deferred_queue@.contains(e) && e.subscriber == subscriber@;
            &&& r.adopted <==> waits || blobs@.len() > 0
            &&& waits || blobs@.len() == 0 ==> final(node).deferred_queue@ == old(node).deferred_queue@
                && r.wake@.len() == 0
            &&& !waits && blobs@.len() > 0 ==> (registration_views(r.wake@).contains(reg) <==> old(node).notify_registry@.contains(reg) && reg.subscriber == subscriber@ && reg.channel == Some(channel@))
        }),
{
    let entries = old(node).deferred_queue@;
    let test = crate::deferred_queue::is_of(subscriber@);
    crate::octets::lemma_filter_holds(entries, test);
    let mine = entries.filter(test);
    if mine.len() > 0 {
        assert(mine.contains(mine[0]));
        assert(entries.contains(mine[0]));
    }
    if exists|e: crate::deferred_queue::Deferred| #[trigger]
        entries.contains(e) && e.subscriber == subscriber@ {
        let e = choose|e: crate::deferred_queue::Deferred| #[trigger]
            entries.contains(e) && e.subscriber == subscriber@;
        assert(test(e));
        assert(mine.contains(e));
    }
    crate::octets::lemma_filter_holds(
        old(node).notify_registry@,
        of_channel(subscriber@, Some(channel@)),
    );
}

} // verus!
