//! The stored messages of a propagation node.
use vstd::prelude::*;
use crate::digest::{sha256, sha256_of};
use crate::id_map::{distinct, has_key, keys_of, put, value_of, without_all};
use crate::lxmf_propagation::node::{LxmfPropagationNode, NodeView, PropagationEntry, DESTINATION_LENGTH};
use crate::lxmf_propagation::peer::{with_unhandled, without_messages, PeerView};
use crate::octets::{copied, joined, same_bytes, slice_of, views};
use crate::order::{sorted_positions, stable_order};
use crate::text::{
    decimal, decimal_text, decode_hex, hex, hex_bytes, hex_text, parse_u32, pieces, pieces_of, text_views, u32_of,
};

verus! {

/// How long a message is kept.
pub const MESSAGE_EXPIRY: u64 = 604_800_000_000_000;

/// A message that is about to be stored.
pub struct NewMessage {
    /// Its id: the digest of the message.
    pub transient_id: Vec<u8>,
    /// The destination that it is for: its first bytes.
    pub destination_hash: Vec<u8>,
    /// What its file holds: the message, and its stamp where it has one.
    pub file_data: Vec<u8>,
}

/// The message followed by its stamp.
pub open spec fn with_stamp(lxmf_data: Seq<u8>, stamp: Option<&[u8]>) -> Seq<u8> {
    match stamp {
        Some(s) => lxmf_data + s@,
        None => lxmf_data,
    }
}

/// The peers with a message queued for each of them but the one that it came
/// from.
pub open spec fn queued_for_peers(peers: Seq<PeerView>, id: Seq<u8>, from_peer: Option<Seq<u8>>) -> Seq<PeerView> {
    Seq::new(
        peers.len(),
        |i: int|
            if from_peer == Some(peers[i].destination_hash) {
                peers[i]
            } else {
                with_unhandled(peers[i], id)
            },
    )
}

/// A new message waits for every peer but the one that it came from, unless the
/// peer has it already: for all of them, where it came from none. What else
/// waits for a peer stays, and the sender's queues are as they were.
pub proof fn law_message_is_queued_for_every_other_peer(
    peers: Seq<PeerView>,
    id: Seq<u8>,
    from_peer: Option<Seq<u8>>,
    i: int,
)
    requires
        0 <= i < peers.len(),
    ensures
        queued_for_peers(peers, id, from_peer).len() == peers.len(),
        ({
            let before = peers[i];
            let after = queued_for_peers(peers, id, from_peer)[i];
            let sender = from_peer is Some && from_peer->0 == before.destination_hash;
            &&& after.destination_hash == before.destination_hash
            &&& after.handled == before.handled
            &&& sender ==> after == before
            &&& !sender && !before.handled.contains(id) ==> after.unhandled.contains(id)
            &&& from_peer is None && !before.handled.contains(id) ==> after.unhandled.contains(id)
            &&& forall|x: Seq<u8>| x != id ==> (#[trigger] after.unhandled.contains(x) <==> before.unhandled.contains(x))
        }),
{
    crate::lxmf_propagation::id_queue::law_one_more_id(peers[i].unhandled, id);
}

/// The peers with no trace of the messages of a list.
pub open spec fn forgotten_by_peers(peers: Seq<PeerView>, ids: Seq<Seq<u8>>) -> Seq<PeerView> {
    Seq::new(peers.len(), |i: int| without_messages(peers[i], ids))
}

/// An optional sender's hash.
pub open spec fn sender_view(from_peer: Option<&[u8]>) -> Option<Seq<u8>> {
    match from_peer {
        Some(p) => Some(p@),
        None => None,
    }
}

impl LxmfPropagationNode {
    /// What is to be stored for a message: nothing where it is too short to
    /// name its destination, or is stored already.
    pub fn prepare_message(&self, lxmf_data: &[u8], stamp_data: Option<&[u8]>) -> (r: Option<NewMessage>)
        requires
            self.wf(),
        ensures
            r is Some <==> lxmf_data@.len() >= DESTINATION_LENGTH && !has_key(self@.entries, sha256_of(lxmf_data@)),
            r matches Some(m) ==> m.transient_id@ == sha256_of(lxmf_data@) && m.destination_hash@ == lxmf_data@.take(
                DESTINATION_LENGTH as int,
            ) && m.file_data@ == with_stamp(lxmf_data@, stamp_data),
    {
        if lxmf_data.len() < DESTINATION_LENGTH {
            return None;
        }
        let transient_id: Vec<u8> = sha256(lxmf_data);
        if self.entries.contains(transient_id.as_slice()) {
            return None;
        }
        let file_data: Vec<u8> = match stamp_data {
            Some(s) => joined(lxmf_data, s),
            None => copied(lxmf_data),
        };
        let destination_hash: Vec<u8> = slice_of(lxmf_data, 0, DESTINATION_LENGTH);
        assert(destination_hash@ =~= lxmf_data@.take(DESTINATION_LENGTH as int));
        Some(NewMessage { transient_id, destination_hash, file_data })
    }

    fn queue_for_peers(&mut self, id: &Vec<u8>, from_peer: Option<&[u8]>)
        requires
            old(self).wf(),
        ensures
            final(self).wf(),
            final(self)@ == (NodeView {
                peers: queued_for_peers(old(self)@.peers, id@, sender_view(from_peer)),
                ..old(self)@
            }),
    {
        let ghost before = self@.peers;
        let ghost after = queued_for_peers(before, id@, sender_view(from_peer));
        let mut i: usize = 0;
        while i < self.peers.len()
            invariant
                self.wf(),
                0 <= i <= self.peers@.len(),
                before == old(self)@.peers,
                after == queued_for_peers(before, id@, sender_view(from_peer)),
                before.len() == self.peers@.len(),
                forall|j: int| 0 <= j < i ==> (#[trigger] self.peers@[j])@ == after[j],
                forall|j: int| i <= j < before.len() ==> (#[trigger] self.peers@[j])@ == before[j],
                self@ == (NodeView { peers: self@.peers, ..old(self)@ }),
            decreases self.peers@.len() - i,
        {
            let same: bool = match from_peer {
                Some(p) => same_bytes(p, self.peers[i].destination_hash.as_slice()),
                None => false,
            };
            let ghost was = self@.peers;
            assert(self.peers@[i as int]@ == before[i as int]);
            if !same {
                self.peers[i].add_unhandled(copied(id.as_slice()));
            }
            proof {
                let now = self@.peers;
                assert forall|a: int, b: int| 0 <= a < b < now.len() implies (#[trigger] now[a]).destination_hash != (
                #[trigger] now[b]).destination_hash by {
                    assert(was[a].destination_hash != was[b].destination_hash);
                }
            }
            i += 1;
        }
        assert(self@.peers =~= after);
    }

    /// Takes a message in whose file has been written: it is indexed, queued
    /// for every peer but the one that it came from, and counted. Says whether
    /// it was; a message that is there already changes nothing.
    pub fn record_message(
        &mut self,
        message: NewMessage,
        filepath: String,
        received: u64,
        stamp_value: u32,
        from_peer: Option<&[u8]>,
    ) -> (r: bool)
        requires
            old(self).wf(),
            old(self).messages_received < u64::MAX,
        ensures
            final(self).wf(),
            r == !has_key(old(self)@.entries, message.transient_id@),
            !r ==> final(self)@ == old(self)@,
            r ==> final(self)@ == (NodeView {
                entries: old(self)@.entries.push(
                    (
                        message.transient_id@,
                        PropagationEntry {
                            destination_hash: message.destination_hash,
                            filepath,
                            received,
                            size: message.file_data.len(),
                            stamp_value,
                        },
                    ),
                ),
                peers: queued_for_peers(old(self)@.peers, message.transient_id@, sender_view(from_peer)),
                fresh: old(self)@.fresh.push(message.transient_id@),
                messages_received: (old(self).messages_received + 1) as u64,
                ..old(self)@
            }),
    {
        let id: Vec<u8> = message.transient_id;
        if self.entries.contains(id.as_slice()) {
            return false;
        }
        let entry: PropagationEntry = PropagationEntry {
            destination_hash: message.destination_hash,
            filepath,
            received,
            size: message.file_data.len(),
            stamp_value,
        };
        self.entries.push_new(copied(id.as_slice()), entry);
        self.queue_for_peers(&id, from_peer);
        let ghost fresh0 = self.fresh_since_start@;
        self.fresh_since_start.push(id);
        assert(views(self.fresh_since_start@) =~= views(fresh0).push(id@));
        self.messages_received = self.messages_received + 1;
        true
    }

    /// Drops every trace of the messages of a list from every peer.
    pub(crate) fn forget_by_peers(&mut self, ids: &Vec<Vec<u8>>)
        requires
            old(self).wf(),
        ensures
            final(self).wf(),
            final(self)@ == (NodeView { peers: forgotten_by_peers(old(self)@.peers, views(ids@)), ..old(self)@ }),
    {
        let ghost before = self@.peers;
        let ghost after = forgotten_by_peers(before, views(ids@));
        let mut i: usize = 0;
        while i < self.peers.len()
            invariant
                self.wf(),
                0 <= i <= self.peers@.len(),
                before == old(self)@.peers,
                after == forgotten_by_peers(before, views(ids@)),
                before.len() == self.peers@.len(),
                forall|j: int| 0 <= j < i ==> (#[trigger] self.peers@[j])@ == after[j],
                forall|j: int| i <= j < before.len() ==> (#[trigger] self.peers@[j])@ == before[j],
                self@ == (NodeView { peers: self@.peers, ..old(self)@ }),
            decreases self.peers@.len() - i,
        {
            let ghost was = self@.peers;
            assert(self.peers@[i as int]@ == before[i as int]);
            self.peers[i].forget(ids);
            proof {
                lemma_without_messages_hash(before[i as int], views(ids@));
                let now = self@.peers;
                assert forall|a: int, b: int| 0 <= a < b < now.len() implies (#[trigger] now[a]).destination_hash != (
                #[trigger] now[b]).destination_hash by {
                    assert(was[a].destination_hash != was[b].destination_hash);
                }
            }
            i += 1;
        }
        assert(self@.peers =~= after);
    }
}

/// Forgetting messages does not change who the peer is.
pub proof fn lemma_without_messages_hash(p: PeerView, ids: Seq<Seq<u8>>)
    ensures
        without_messages(p, ids).destination_hash == p.destination_hash,
    decreases ids.len(),
{
    if ids.len() > 0 {
        lemma_without_messages_hash(p, ids.drop_last());
    }
}

/// The test that a message has expired.
pub open spec fn expired_at(now: u64) -> spec_fn((Seq<u8>, PropagationEntry)) -> bool {
    |e: (Seq<u8>, PropagationEntry)| e.1.received + MESSAGE_EXPIRY < now
}

/// The ids of the messages that have expired, in order.
pub open spec fn expired_ids(entries: Seq<(Seq<u8>, PropagationEntry)>, now: u64) -> Seq<Seq<u8>> {
    keys_of(entries.filter(expired_at(now)))
}

/// The files of the messages of a list of entries, in order.
pub open spec fn files_of(entries: Seq<(Seq<u8>, PropagationEntry)>) -> Seq<Seq<char>> {
    entries.map_values(|e: (Seq<u8>, PropagationEntry)| e.1.filepath@)
}

impl LxmfPropagationNode {
    /// Drops the messages that have expired, here and from every peer. Returns
    /// their files.
    pub fn evict_expired(&mut self, now: u64) -> (r: Vec<String>)
        requires
            old(self).wf(),
        ensures
            final(self).wf(),
            text_views(r@) == files_of(old(self)@.entries.filter(expired_at(now))),
            final(self)@ == (NodeView {
                entries: without_all(old(self)@.entries, expired_ids(old(self)@.entries, now)),
                peers: forgotten_by_peers(old(self)@.peers, expired_ids(old(self)@.entries, now)),
                ..old(self)@
            }),
    {
        let mut ids: Vec<Vec<u8>> = Vec::new();
        let mut files: Vec<String> = Vec::new();
        let ghost all = self.entries@;
        let ghost gone = expired_at(now);
        {
            let pairs: Vec<(&Vec<u8>, &PropagationEntry)> = self.entries.pairs();
            let mut i: usize = 0;
            proof {
                crate::octets::lemma_filter_ends(all, gone);
                assert(views(ids@) =~= keys_of(all.take(0).filter(gone)));
                assert(text_views(files@) =~= files_of(all.take(0).filter(gone)));
            }
            while i < pairs.len()
                invariant
                    0 <= i <= pairs@.len(),
                    gone == expired_at(now),
                    pairs@.len() == all.len(),
                    forall|j: int|
                        0 <= j < pairs@.len() ==> (#[trigger] pairs@[j]).0@ == all[j].0 && *pairs@[j].1 == all[j].1,
                    views(ids@) == keys_of(all.take(i as int).filter(gone)),
                    text_views(files@) == files_of(all.take(i as int).filter(gone)),
                decreases pairs@.len() - i,
            {
                proof {
                    crate::octets::lemma_filter_step(all, gone, i as int);
                }
                let entry: &PropagationEntry = pairs[i].1;
                let ghost kept = all.take(i as int).filter(gone);
                if entry.received < now && now - entry.received > MESSAGE_EXPIRY {
                    let ghost ids0 = ids@;
                    let ghost files0 = files@;
                    let id: Vec<u8> = copied(pairs[i].0.as_slice());
                    let file: String = entry.filepath.as_str().to_owned();
                    ids.push(id);
                    files.push(file);
                    proof {
                        assert(gone(all[i as int]));
                        assert(views(ids@) =~= views(ids0).push(id@));
                        assert(text_views(files@) =~= text_views(files0).push(file@));
                        assert(keys_of(kept.push(all[i as int])) =~= keys_of(kept).push(all[i as int].0));
                        assert(files_of(kept.push(all[i as int])) =~= files_of(kept).push(all[i as int].1.filepath@));
                    }
                } else {
                    assert(!gone(all[i as int]));
                }
                i += 1;
            }
        }
        proof {
            crate::octets::lemma_filter_ends(all, gone);
        }
        self.entries.remove_all(&ids);
        self.forget_by_peers(&ids);
        files
    }
}

/// The bytes of all the messages of a list.
pub open spec fn total_size(entries: Seq<(Seq<u8>, PropagationEntry)>) -> nat
    decreases entries.len(),
{
    if entries.len() == 0 {
        0
    } else {
        total_size(entries.drop_last()) + entries.last().1.size as nat
    }
}

/// When each message was received.
pub open spec fn arrival_keys(entries: Seq<(Seq<u8>, PropagationEntry)>) -> Seq<u128> {
    entries.map_values(|e: (Seq<u8>, PropagationEntry)| e.1.received as u128)
}

/// The entries of a list in another order.
pub open spec fn in_order(
    entries: Seq<(Seq<u8>, PropagationEntry)>,
    order: Seq<usize>,
) -> Seq<(Seq<u8>, PropagationEntry)> {
    order.map_values(|i: usize| entries[i as int])
}

/// Whether dropping the first `n` of `by_age` is what it takes to bring
/// `total` bytes within `limit`: no fewer would do.
pub open spec fn enough_dropped(
    by_age: Seq<(Seq<u8>, PropagationEntry)>,
    total: nat,
    limit: nat,
    n: int,
) -> bool {
    &&& 0 <= n <= by_age.len()
    &&& n == by_age.len() || total - total_size(by_age.take(n)) <= limit
    &&& forall|k: int| 0 <= k < n ==> total - #[trigger] total_size(by_age.take(k)) > limit
}

/// There is one number of messages that it takes.
pub proof fn law_enough_is_unique(
    by_age: Seq<(Seq<u8>, PropagationEntry)>,
    total: nat,
    limit: nat,
    n: int,
    m: int,
)
    requires
        enough_dropped(by_age, total, limit, n),
        enough_dropped(by_age, total, limit, m),
    ensures
        n == m,
{
    if n < m {
        assert(total - total_size(by_age.take(n)) > limit);
    } else if m < n {
        assert(total - total_size(by_age.take(m)) > limit);
    }
}

/// There is a number of messages that it takes, `k` or more where fewer do not
/// do.
proof fn lemma_enough_from(by_age: Seq<(Seq<u8>, PropagationEntry)>, total: nat, limit: nat, k: int)
    requires
        0 <= k <= by_age.len(),
        forall|j: int| 0 <= j < k ==> total - #[trigger] total_size(by_age.take(j)) > limit,
    ensures
        exists|n: int| enough_dropped(by_age, total, limit, n),
    decreases by_age.len() - k,
{
    if k == by_age.len() || total - total_size(by_age.take(k)) <= limit {
        assert(enough_dropped(by_age, total, limit, k));
    } else {
        lemma_enough_from(by_age, total, limit, k + 1);
    }
}

/// There is a number of messages that it takes.
pub proof fn law_enough_exists(by_age: Seq<(Seq<u8>, PropagationEntry)>, total: nat, limit: nat)
    ensures
        exists|n: int| enough_dropped(by_age, total, limit, n),
{
    lemma_enough_from(by_age, total, limit, 0);
}

/// The places of the messages, oldest first.
pub open spec fn age_order(entries: Seq<(Seq<u8>, PropagationEntry)>) -> Seq<usize> {
    choose|order: Seq<usize>| stable_order(arrival_keys(entries), order)
}

/// How many of the oldest messages are to go.
pub open spec fn drop_count(by_age: Seq<(Seq<u8>, PropagationEntry)>, total: nat, limit: nat) -> int {
    choose|n: int| enough_dropped(by_age, total, limit, n)
}

/// The messages that are to go for the rest to be within the limit, oldest
/// first: as few of the oldest as it takes.
pub open spec fn over_limit(entries: Seq<(Seq<u8>, PropagationEntry)>, limit: nat) -> Seq<
    (Seq<u8>, PropagationEntry),
> {
    let by_age = in_order(entries, age_order(entries));
    by_age.take(drop_count(by_age, total_size(entries), limit))
}

impl LxmfPropagationNode {
    /// The bytes of all stored messages.
    pub fn stored_bytes(&self) -> (r: u128)
        requires
            self.wf(),
            self@.entries.len() <= u64::MAX,
        ensures
            r == total_size(self@.entries),
    {
        let ghost all = self.entries@;
        let pairs: Vec<(&Vec<u8>, &PropagationEntry)> = self.entries.pairs();
        let mut total: u128 = 0;
        let mut i: usize = 0;
        while i < pairs.len()
            invariant
                0 <= i <= pairs@.len(),
                pairs@.len() == all.len(),
                all.len() <= u64::MAX,
                forall|j: int| 0 <= j < pairs@.len() ==> *(#[trigger] pairs@[j]).1 == all[j].1,
                total == total_size(all.take(i as int)),
                total <= i * usize::MAX,
            decreases pairs@.len() - i,
        {
            proof {
                assert(all.take(i + 1).drop_last() =~= all.take(i as int));
                assert(i * usize::MAX + usize::MAX == (i + 1) * usize::MAX) by (nonlinear_arith);
                assert((i + 1) * usize::MAX <= u64::MAX * u64::MAX) by (nonlinear_arith)
                    requires
                        i + 1 <= u64::MAX,
                ;
            }
            total = total + pairs[i].1.size as u128;
            i += 1;
        }
        assert(all.take(all.len() as int) =~= all);
        total
    }

    /// Drops the oldest messages, here and from every peer, until the rest is
    /// within the storage limit. Returns their files.
    pub fn enforce_storage_limit(&mut self) -> (r: Vec<String>)
        requires
            old(self).wf(),
            old(self)@.entries.len() <= u64::MAX,
        ensures
            final(self).wf(),
            total_size(final(self)@.entries) <= old(self).settings.storage_limit_bytes,
            text_views(r@) == files_of(over_limit(old(self)@.entries, old(self).settings.storage_limit_bytes as nat)),
            final(self)@ == (NodeView {
                entries: without_all(
                    old(self)@.entries,
                    keys_of(over_limit(old(self)@.entries, old(self).settings.storage_limit_bytes as nat)),
                ),
                peers: forgotten_by_peers(
                    old(self)@.peers,
                    keys_of(over_limit(old(self)@.entries, old(self).settings.storage_limit_bytes as nat)),
                ),
                ..old(self)@
            }),
    {
        let total: u128 = self.stored_bytes();
        let limit: u128 = self.settings.storage_limit_bytes as u128;
        let ghost all = self.entries@;
        proof {
            self.entries.lemma_distinct();
        }
        let mut ids: Vec<Vec<u8>> = Vec::new();
        let mut files: Vec<String> = Vec::new();
        let mut n: usize = 0;
        let ghost order0: Seq<usize>;
        {
            let pairs: Vec<(&Vec<u8>, &PropagationEntry)> = self.entries.pairs();
            let mut keys: Vec<u128> = Vec::new();
            let mut i: usize = 0;
            while i < pairs.len()
                invariant
                    0 <= i <= pairs@.len(),
                    pairs@.len() == all.len(),
                    forall|j: int| 0 <= j < pairs@.len() ==> *(#[trigger] pairs@[j]).1 == all[j].1,
                    keys@.len() == i,
                    forall|j: int| 0 <= j < i ==> #[trigger] keys@[j] == arrival_keys(all)[j],
                decreases pairs@.len() - i,
            {
                keys.push(pairs[i].1.received as u128);
                i += 1;
            }
            assert(keys@ =~= arrival_keys(all));
            let order: Vec<usize> = sorted_positions(&keys);
            proof {
                order0 = order@;
            }
            let ghost by_age = in_order(all, order@);
            let mut rest: u128 = total;
            assert(by_age.take(0) =~= Seq::empty());
            assert(views(ids@) =~= keys_of(by_age.take(0)));
            assert(text_views(files@) =~= files_of(by_age.take(0)));
            proof {
                lemma_sizes_add_up(all, order@);
            }
            while n < order.len() && rest > limit
                invariant
                    0 <= n <= order@.len(),
                    stable_order(arrival_keys(all), order@),
                    order@.len() == all.len(),
                    by_age == in_order(all, order@),
                    total_size(by_age) == total,
                    pairs@.len() == all.len(),
                    forall|j: int|
                        0 <= j < pairs@.len() ==> (#[trigger] pairs@[j]).0@ == all[j].0 && *pairs@[j].1 == all[j].1,
                    rest == total - total_size(by_age.take(n as int)),
                    views(ids@) == keys_of(by_age.take(n as int)),
                    text_views(files@) == files_of(by_age.take(n as int)),
                    forall|k: int| 0 <= k < n ==> total - #[trigger] total_size(by_age.take(k)) > limit,
                decreases order@.len() - n,
            {
                let p: usize = order[n];
                let ghost e = by_age[n as int];
                assert(e == all[p as int]);
                proof {
                    assert(by_age.take(n + 1).drop_last() =~= by_age.take(n as int));
                    assert(by_age.take(n + 1) =~= by_age.take(n as int).push(e));
                    lemma_prefix_size(by_age, n + 1);
                }
                let entry: &PropagationEntry = pairs[p].1;
                let id: Vec<u8> = copied(pairs[p].0.as_slice());
                let file: String = entry.filepath.as_str().to_owned();
                rest = rest - entry.size as u128;
                let ghost ids0 = ids@;
                let ghost files0 = files@;
                ids.push(id);
                files.push(file);
                proof {
                    assert(views(ids@) =~= views(ids0).push(id@));
                    assert(text_views(files@) =~= text_views(files0).push(file@));
                    assert(keys_of(by_age.take(n + 1)) =~= keys_of(by_age.take(n as int)).push(e.0));
                    assert(files_of(by_age.take(n + 1)) =~= files_of(by_age.take(n as int)).push(e.1.filepath@));
                }
                n += 1;
            }
        }
        self.entries.remove_all(&ids);
        self.forget_by_peers(&ids);
        proof {
            let by_age = in_order(all, order0);
            assert(enough_dropped(by_age, total_size(all), limit as nat, n as int));
            lemma_rest_is_within_limit(all, limit as nat, order0, n as int);
        }
        files
    }
}

proof fn lemma_size_without_one(entries: Seq<(Seq<u8>, PropagationEntry)>, k: int)
    requires
        0 <= k < entries.len(),
    ensures
        total_size(entries.remove(k)) + entries[k].1.size == total_size(entries),
    decreases entries.len(),
{
    if k == entries.len() - 1 {
        assert(entries.remove(k) =~= entries.drop_last());
    } else {
        lemma_size_without_one(entries.drop_last(), k);
        assert(entries.remove(k).drop_last() =~= entries.drop_last().remove(k));
        assert(entries.remove(k).last() == entries.last());
    }
}

/// Messages take up as much in any order.
proof fn lemma_size_in_any_order(entries: Seq<(Seq<u8>, PropagationEntry)>, order: Seq<usize>)
    requires
        entries.len() <= usize::MAX,
        order.len() == entries.len(),
        forall|i: int| 0 <= i < order.len() ==> (#[trigger] order[i]) < entries.len(),
        forall|a: usize| a < entries.len() ==> #[trigger] order.contains(a),
        order.no_duplicates(),
    ensures
        total_size(in_order(entries, order)) == total_size(entries),
    decreases entries.len(),
{
    if entries.len() > 0 {
        let last = (entries.len() - 1) as usize;
        assert(order.contains(last));
        let k = order.index_of(last);
        let fewer = order.remove(k);
        let rest = entries.drop_last();
        assert forall|i: int| 0 <= i < fewer.len() implies (#[trigger] fewer[i]) < rest.len() by {
            let j = if i < k { i } else { i + 1 };
            assert(fewer[i] == order[j]);
            assert(order[j] != order[k]);
        }
        assert forall|a: usize| a < rest.len() implies #[trigger] fewer.contains(a) by {
            assert(order.contains(a));
            let j = order.index_of(a);
            if j < k {
                assert(fewer[j] == a);
            } else {
                assert(fewer[j - 1] == a);
            }
        }
        assert forall|i: int, j: int| 0 <= i < fewer.len() && 0 <= j < fewer.len() && i != j implies fewer[i]
            != fewer[j] by {
            let a = if i < k { i } else { i + 1 };
            let b = if j < k { j } else { j + 1 };
            assert(order[a] != order[b]);
        }
        lemma_size_in_any_order(rest, fewer);
        lemma_size_without_one(in_order(entries, order), k);
        assert(in_order(entries, order).remove(k) =~= in_order(rest, fewer)) by {
            assert forall|i: int| 0 <= i < fewer.len() implies in_order(entries, order).remove(k)[i] == in_order(
                rest,
                fewer,
            )[i] by {
                assert(fewer[i] < rest.len());
            }
        }
    } else {
        assert(in_order(entries, order) =~= entries);
    }
}

/// A stable order leaves no message out.
proof fn lemma_sizes_add_up(entries: Seq<(Seq<u8>, PropagationEntry)>, order: Seq<usize>)
    requires
        entries.len() <= usize::MAX,
        stable_order(arrival_keys(entries), order),
    ensures
        total_size(in_order(entries, order)) == total_size(entries),
{
    let keys = arrival_keys(entries);
    assert forall|i: int, j: int| 0 <= i < order.len() && 0 <= j < order.len() && i != j implies order[i] != order[j] by {
        if i < j {
            assert(crate::order::precedes(keys, order[i] as int, order[j] as int));
        } else {
            assert(crate::order::precedes(keys, order[j] as int, order[i] as int));
        }
    }
    lemma_size_in_any_order(entries, order);
}

/// A prefix takes up no more than the whole.
proof fn lemma_prefix_size(entries: Seq<(Seq<u8>, PropagationEntry)>, n: int)
    requires
        0 <= n <= entries.len(),
    ensures
        total_size(entries.take(n)) <= total_size(entries),
    decreases entries.len(),
{
    if n == entries.len() {
        assert(entries.take(n) =~= entries);
    } else {
        lemma_prefix_size(entries.drop_last(), n);
        assert(entries.drop_last().take(n) =~= entries.take(n));
    }
}

/// What is left after the first `k` of `by_age` went.
proof fn lemma_rest_size(
    entries: Seq<(Seq<u8>, PropagationEntry)>,
    order: Seq<usize>,
    k: int,
)
    requires
        entries.len() <= usize::MAX,
        distinct(entries),
        stable_order(arrival_keys(entries), order),
        0 <= k <= order.len(),
    ensures
        total_size(without_all(entries, keys_of(in_order(entries, order).take(k)))) + total_size(
            in_order(entries, order).take(k),
        ) == total_size(entries),
    decreases k,
{
    let by_age = in_order(entries, order);
    let keys = keys_of(by_age);
    if k == 0 {
        assert(by_age.take(0) =~= Seq::empty());
        crate::octets::lemma_filter_all(
            entries,
            crate::id_map::not_among::<PropagationEntry>(keys_of(by_age.take(0))),
        );
    } else {
        lemma_rest_size(entries, order, k - 1);
        let few = keys_of(by_age.take(k - 1));
        let e = by_age[k - 1];
        assert(keys.take(k - 1) =~= few);
        assert(keys.take(k) =~= keys_of(by_age.take(k)));
        crate::id_map::lemma_without_step(entries, keys, k - 1);
        let left = without_all(entries, few);
        let keep = crate::id_map::not_among::<PropagationEntry>(few);
        crate::id_map::lemma_filter_distinct(entries, keep);
        crate::octets::lemma_filter_holds(entries, keep);
        assert(order[k - 1] < entries.len());
        assert(entries.contains(e)) by {
            assert(entries[order[k - 1] as int] == e);
        }
        assert(!few.contains(e.0)) by {
            if few.contains(e.0) {
                let j = few.index_of(e.0);
                assert(by_age[j].0 == e.0);
                let a = order[j] as int;
                let b = order[k - 1] as int;
                assert(crate::order::precedes(arrival_keys(entries), a, b));
                assert(entries[a].0 == entries[b].0);
                if a < b {
                    assert(entries[a].0 != entries[b].0);
                } else {
                    assert(entries[b].0 != entries[a].0);
                }
            }
        }
        assert(keep(e));
        assert(left.contains(e));
        let i = left.index_of(e);
        crate::id_map::lemma_without_one(left, i);
        lemma_size_without_one(left, i);
        assert(by_age.take(k).drop_last() =~= by_age.take(k - 1));
        assert(by_age.take(k).last() == e);
    }
}

/// What the storage limit leaves is within it.
proof fn lemma_rest_is_within_limit(entries: Seq<(Seq<u8>, PropagationEntry)>, limit: nat, order: Seq<usize>, n: int)
    requires
        entries.len() <= usize::MAX,
        distinct(entries),
        stable_order(arrival_keys(entries), order),
        enough_dropped(in_order(entries, order), total_size(entries), limit, n),
    ensures
        over_limit(entries, limit) == in_order(entries, order).take(n),
        total_size(without_all(entries, keys_of(over_limit(entries, limit)))) <= limit,
{
    crate::order::law_stable_order_is_unique(arrival_keys(entries), order, age_order(entries));
    let by_age = in_order(entries, order);
    law_enough_is_unique(by_age, total_size(entries), limit, n, drop_count(by_age, total_size(entries), limit));
    lemma_rest_size(entries, order, n);
    if n == by_age.len() {
        assert(by_age.take(n) =~= by_age);
        lemma_sizes_add_up(entries, order);
    }
}

/// What the storage limit leaves is within it, and the oldest messages go: none
/// that goes came later than one that stays.
pub proof fn law_storage_limit_is_kept(entries: Seq<(Seq<u8>, PropagationEntry)>, limit: nat)
    requires
        entries.len() <= usize::MAX,
        distinct(entries),
    ensures
        total_size(without_all(entries, keys_of(over_limit(entries, limit)))) <= limit,
        stable_order(arrival_keys(entries), age_order(entries)),
        ({
            let by_age = in_order(entries, age_order(entries));
            let gone = over_limit(entries, limit);
            &&& gone == by_age.take(gone.len() as int)
            &&& forall|i: int, j: int|
                0 <= i < gone.len() <= j < entries.len() ==> (#[trigger] gone[i]).1.received <= (
                #[trigger] by_age[j]).1.received
        }),
{
    crate::order::law_stable_order_exists(arrival_keys(entries));
    let order = age_order(entries);
    let by_age = in_order(entries, order);
    law_enough_exists(by_age, total_size(entries), limit);
    let n = drop_count(by_age, total_size(entries), limit);
    lemma_rest_is_within_limit(entries, limit, order, n);
    let gone = over_limit(entries, limit);
    assert forall|i: int, j: int| 0 <= i < gone.len() <= j < entries.len() implies (#[trigger] gone[i]).1.received
        <= (#[trigger] by_age[j]).1.received by {
        assert(crate::order::precedes(arrival_keys(entries), order[i] as int, order[j] as int));
    }
}

/// The name of a message's file: its id, when it was received, and the value
/// of its stamp.
pub open spec fn stored_name_of(id: Seq<u8>, received: Seq<char>, stamp_value: u32) -> Seq<char> {
    hex_text(id) + seq!['_'] + received + seq!['_'] + decimal_text(stamp_value as nat)
}

/// The name of a message's file, as [`stored_name_of`] says. The text of the
/// time is the caller's.
pub fn stored_name(id: &[u8], received: &str, stamp_value: u32) -> (r: String)
    ensures
        r@ == stored_name_of(id@, received@, stamp_value),
{
    proof {
        reveal_strlit("_");
        assert("_"@ =~= seq!['_']);
    }
    let number: String = decimal(stamp_value as u64);
    hex(id).concat("_").concat(received).concat("_").concat(number.as_str())
}

/// What the name of a message's file says.
pub struct StoredName {
    pub transient_id: Vec<u8>,
    /// The text of the time at which the message was received.
    pub received: String,
    pub stamp_value: u32,
}

/// What the name of a file says, where it is that of a message: at least three
/// pieces, the first the 64 hexadecimal digits of an id, the third a number.
pub open spec fn named_message(name: Seq<char>) -> Option<(Seq<u8>, Seq<char>, u32)> {
    let parts = pieces_of(name, '_');
    if parts.len() < 3 || parts[0].len() != 64 {
        None
    } else {
        match (hex_bytes(parts[0]), u32_of(parts[2])) {
            (Some(id), Some(stamp_value)) => Some((id, parts[1], stamp_value)),
            _ => None,
        }
    }
}

/// What the name of a file says, as [`named_message`] says.
pub fn parse_stored_name(name: &str) -> (r: Option<StoredName>)
    ensures
        r is Some <==> named_message(name@) is Some,
        r matches Some(n) ==> named_message(name@) == Some((n.transient_id@, n.received@, n.stamp_value)),
{
    let parts: Vec<String> = pieces(name, '_');
    let ghost all = pieces_of(name@, '_');
    assert(all.len() == parts@.len());
    if parts.len() < 3 {
        return None;
    }
    assert(parts@[0]@ == all[0] && parts@[1]@ == all[1] && parts@[2]@ == all[2]);
    if parts[0].as_str().unicode_len() != 64 {
        return None;
    }
    match (decode_hex(parts[0].as_str()), parse_u32(parts[2].as_str())) {
        (Some(transient_id), Some(stamp_value)) => Some(
            StoredName { transient_id, received: parts[1].as_str().to_owned(), stamp_value },
        ),
        _ => None,
    }
}

/// What a message's file is named is read back from the name, for any text of
/// the time that holds no underscore.
pub proof fn law_stored_name_is_read_back(id: Seq<u8>, received: Seq<char>, stamp_value: u32)
    requires
        id.len() == 32,
        !received.contains('_'),
    ensures
        named_message(stored_name_of(id, received, stamp_value)) == Some((id, received, stamp_value)),
{
    let a = hex_text(id);
    let c = decimal_text(stamp_value as nat);
    crate::text::law_hex_round_trip(id);
    crate::text::law_decimal_round_trip(stamp_value as nat);
    assert(!a.contains('_')) by {
        if a.contains('_') {
            let i = a.index_of('_');
            assert(crate::text::hex_value(a[i]) is Some);
        }
    }
    assert(!c.contains('_')) by {
        if c.contains('_') {
            let i = c.index_of('_');
            assert('0' <= c[i] <= '9');
        }
    }
    crate::text::lemma_one_piece(a, '_');
    crate::text::lemma_one_piece(received, '_');
    crate::text::lemma_one_piece(c, '_');
    crate::text::lemma_pieces_joined(received, c, '_');
    crate::text::lemma_pieces_joined(a, received.push('_') + c, '_');
    assert(stored_name_of(id, received, stamp_value) =~= a.push('_') + (received.push('_') + c));
    assert(pieces_of(stored_name_of(id, received, stamp_value), '_') =~= seq![a, received, c]);
}

impl LxmfPropagationNode {
    /// Takes a message into the index that was found in the store: its file
    /// starts with the hash of the destination that it is for. Says whether it
    /// was taken in; a file that is too short is not.
    pub fn index_message(
        &mut self,
        name: StoredName,
        filepath: String,
        received: u64,
        size: usize,
        file_data: &[u8],
    ) -> (r: bool)
        requires
            old(self).wf(),
        ensures
            final(self).wf(),
            r == (file_data@.len() >= DESTINATION_LENGTH),
            !r ==> final(self)@ == old(self)@,
            r ==> indexed(
                old(self)@,
                final(self)@,
                name.transient_id@,
                file_data@.take(DESTINATION_LENGTH as int),
                filepath@,
                received,
                size,
                name.stamp_value,
            ),
    {
        if file_data.len() < DESTINATION_LENGTH {
            return false;
        }
        let destination_hash: Vec<u8> = slice_of(file_data, 0, DESTINATION_LENGTH);
        assert(destination_hash@ =~= file_data@.take(DESTINATION_LENGTH as int));
        let entry: PropagationEntry = PropagationEntry {
            destination_hash,
            filepath,
            received,
            size,
            stamp_value: name.stamp_value,
        };
        let ghost before = self.entries@;
        self.entries.insert(name.transient_id, entry);
        proof {
            assert(entry_is(entry, file_data@.take(DESTINATION_LENGTH as int), filepath@, received, size, name.stamp_value));
        }
        true
    }
}

/// Whether an entry says this.
pub open spec fn entry_is(
    e: PropagationEntry,
    destination_hash: Seq<u8>,
    filepath: Seq<char>,
    received: u64,
    size: usize,
    stamp_value: u32,
) -> bool {
    &&& e.destination_hash@ == destination_hash
    &&& e.filepath@ == filepath
    &&& e.received == received
    &&& e.size == size
    &&& e.stamp_value == stamp_value
}

/// Whether a node has come to hold an entry under `id`, in the place of the
/// one that was there or as a new one, with nothing else changed.
pub open spec fn indexed(
    before: NodeView,
    after: NodeView,
    id: Seq<u8>,
    destination_hash: Seq<u8>,
    filepath: Seq<char>,
    received: u64,
    size: usize,
    stamp_value: u32,
) -> bool {
    &&& after == (NodeView { entries: after.entries, ..before })
    &&& exists|e: PropagationEntry|
        #![trigger entry_is(e, destination_hash, filepath, received, size, stamp_value)]
        {
            &&& entry_is(e, destination_hash, filepath, received, size, stamp_value)
            &&& after.entries == put(before.entries, id, e)
        }
}

/// A message that is dropped neither waits for any peer nor counts as with it,
/// and nothing else about the peers changes.
pub proof fn law_dropped_messages_are_forgotten(peers: Seq<PeerView>, ids: Seq<Seq<u8>>, i: int, x: Seq<u8>)
    requires
        0 <= i < peers.len(),
    ensures
        forgotten_by_peers(peers, ids).len() == peers.len(),
        ({
            let after = forgotten_by_peers(peers, ids)[i];
            &&& after.unhandled.contains(x) <==> peers[i].unhandled.contains(x) && !ids.contains(x)
            &&& after.handled.contains(x) <==> peers[i].handled.contains(x) && !ids.contains(x)
            &&& after == (PeerView { handled: after.handled, unhandled: after.unhandled, ..peers[i] })
        }),
{
    crate::lxmf_propagation::peer::law_forgotten_messages_are_nowhere(peers[i], ids, x);
}

/// A message expires exactly where it was received more than seven days ago.
pub proof fn law_messages_expire_after_a_week(
    entries: Seq<(Seq<u8>, PropagationEntry)>,
    now: u64,
    stale: spec_fn((Seq<u8>, PropagationEntry)) -> bool,
)
    requires
        forall|e: (Seq<u8>, PropagationEntry)| #[trigger]
            stale(e) <==> now - e.1.received > 7 * 24 * 60 * 60 * 1_000_000_000,
    ensures
        expired_ids(entries, now).len() == entries.filter(stale).len(),
        forall|i: int|
            0 <= i < entries.filter(stale).len() ==> #[trigger] expired_ids(entries, now)[i] == entries.filter(stale)[i].0,
{
    crate::octets::lemma_filter_agree(entries, stale, expired_at(now));
}

/// The size of a store is the sum of the sizes of its messages.
pub proof fn law_sizes_are_summed(
    a: Seq<(Seq<u8>, PropagationEntry)>,
    b: Seq<(Seq<u8>, PropagationEntry)>,
    e: (Seq<u8>, PropagationEntry),
)
    ensures
        total_size(a + b) == total_size(a) + total_size(b),
        total_size(seq![e]) == e.1.size,
        total_size(Seq::empty()) == 0,
    decreases b.len(),
{
    assert(seq![e].drop_last() =~= Seq::empty());
    assert(total_size(seq![e].drop_last()) == 0);
    if b.len() == 0 {
        assert(a + b =~= a);
    } else {
        law_sizes_are_summed(a, b.drop_last(), e);
        assert((a + b).drop_last() =~= a + b.drop_last());
    }
}

/// No more messages go than it takes to come within the limit: none where the
/// store is within it, and where some go, what goes without the last of them
/// would not do.
pub proof fn law_no_message_goes_needlessly(entries: Seq<(Seq<u8>, PropagationEntry)>, limit: nat)
    requires
        entries.len() <= usize::MAX,
        distinct(entries),
    ensures
        total_size(entries) <= limit ==> over_limit(entries, limit).len() == 0,
        over_limit(entries, limit).len() > 0 ==> total_size(entries) - total_size(
            over_limit(entries, limit).drop_last(),
        ) > limit,
{
    law_storage_limit_is_kept(entries, limit);
    let by_age = in_order(entries, age_order(entries));
    law_enough_exists(by_age, total_size(entries), limit);
    let n = drop_count(by_age, total_size(entries), limit);
    let gone = over_limit(entries, limit);
    if n > 0 {
        assert(total_size(entries) - total_size(by_age.take(n - 1)) > limit);
        assert(gone.drop_last() =~= by_age.take(n - 1));
        assert(total_size(entries) - total_size(by_age.take(0)) > limit);
        assert(by_age.take(0) =~= Seq::empty());
    }
}

/// A message that is taken into the index is found under its id with what it
/// was stored with, and every other message is as it was.
pub proof fn law_indexed_message_is_found(
    before: NodeView,
    after: NodeView,
    id: Seq<u8>,
    destination_hash: Seq<u8>,
    filepath: Seq<char>,
    received: u64,
    size: usize,
    stamp_value: u32,
    other: Seq<u8>,
)
    requires
        indexed(before, after, id, destination_hash, filepath, received, size, stamp_value),
        distinct(before.entries),
        other != id,
    ensures
        has_key(after.entries, id),
        value_of(after.entries, id).destination_hash@ == destination_hash,
        value_of(after.entries, id).filepath@ == filepath,
        value_of(after.entries, id).received == received,
        value_of(after.entries, id).size == size,
        value_of(after.entries, id).stamp_value == stamp_value,
        has_key(after.entries, other) <==> has_key(before.entries, other),
        has_key(before.entries, other) ==> value_of(after.entries, other) == value_of(before.entries, other),
        after.peers == before.peers,
{
    let e = choose|e: PropagationEntry|
        #![trigger entry_is(e, destination_hash, filepath, received, size, stamp_value)]
        {
            &&& entry_is(e, destination_hash, filepath, received, size, stamp_value)
            &&& after.entries == put(before.entries, id, e)
        };
    crate::id_map::law_put_is_found(before.entries, id, e, other);
}

/// A stamp is stored behind its message, so that what a client is sent is the
/// message without it.
pub proof fn law_stamp_is_stored_behind(message: Seq<u8>, stamp: &[u8])
    ensures
        with_stamp(message, None) == message,
        with_stamp(message, Some(stamp)) == message + stamp@,
        stamp@.len() == 32 ==> crate::lxmf_propagation::requests::unstamped(with_stamp(message, Some(stamp)))
            == message,
{
    if stamp@.len() == 32 {
        crate::lxmf_propagation::requests::law_client_gets_the_message(message, stamp@);
    }
}

/// The files of messages are listed one for one.
pub proof fn law_files_one_for_one(entries: Seq<(Seq<u8>, PropagationEntry)>)
    ensures
        files_of(entries).len() == entries.len(),
        forall|i: int| 0 <= i < entries.len() ==> #[trigger] files_of(entries)[i] == entries[i].1.filepath@,
{
}

/// A message that is taken in is found under its id, waits for every peer that
/// does not have it but the one it came from, and counts as received. One that
/// is there already changes nothing.
pub proof fn law_recorded_message_goes_on(
    node: &mut LxmfPropagationNode,
    message: NewMessage,
    filepath: String,
    received: u64,
    stamp_value: u32,
    from_peer: Option<&[u8]>,
    r: bool,
    i: int,
)
    requires
        call_ensures(
            LxmfPropagationNode::record_message,
            (node, message, filepath, received, stamp_value, from_peer),
            r,
        ),
        old(node)@.messages_received < u64::MAX,
        0 <= i < old(node)@.peers.len(),
    ensures
        r <==> forall|k: int|
            0 <= k < old(node)@.entries.len() ==> (#[trigger] old(node)@.entries[k]).0 != message.transient_id@,
        !r ==> final(node)@ == old(node)@,
        r ==> {
            let id = message.transient_id@;
            let before = old(node)@.peers[i];
            let after = final(node)@.peers[i];
            &&& final(node)@.entries.drop_last() == old(node)@.entries
            &&& final(node)@.entries.last().0 == id
            &&& final(node)@.entries.last().1.destination_hash@ == message.destination_hash@
            &&& final(node)@.entries.last().1.filepath@ == filepath@
            &&& final(node)@.entries.last().1.received == received
            &&& final(node)@.entries.last().1.stamp_value == stamp_value
            &&& final(node)@.fresh.contains(id)
            &&& final(node)@.messages_received == old(node)@.messages_received + 1
            &&& !before.handled.contains(id) && !(from_peer matches Some(p) && p@ == before.destination_hash)
                ==> after.unhandled.contains(id)
            &&& (from_peer matches Some(p) && p@ == before.destination_hash) ==> after == before
        },
{
    let id = message.transient_id@;
    law_queued_message_reaches_the_peer(old(node)@.peers, id, sender_view(from_peer), i);
    if r {
        assert(final(node)@.entries.drop_last() =~= old(node)@.entries);
        assert(final(node)@.fresh[old(node)@.fresh.len() as int] == id);
        assert(final(node)@.fresh.contains(id));
    }
}

/// A message is queued for a peer exactly where it did not come from that peer
/// and the peer is not known to have it.
pub proof fn law_queued_message_reaches_the_peer(
    peers: Seq<PeerView>,
    id: Seq<u8>,
    from_peer: Option<Seq<u8>>,
    i: int,
)
    requires
        0 <= i < peers.len(),
    ensures
        ({
            let after = queued_for_peers(peers, id, from_peer)[i];
            let sender = from_peer is Some && from_peer->0 == peers[i].destination_hash;
            &&& sender || peers[i].handled.contains(id) ==> after == peers[i]
            &&& !sender && !peers[i].handled.contains(id) ==> after.unhandled.contains(id)
            &&& after.handled == peers[i].handled
            &&& after.destination_hash == peers[i].destination_hash
        }),
{
    crate::lxmf_propagation::id_queue::law_one_more_id(peers[i].unhandled, id);
}

/// What has expired is stored no longer, its files are named, and no peer has it
/// queued. What has not stays.
pub proof fn law_expired_messages_go(
    node: &mut LxmfPropagationNode,
    now: u64,
    files: Vec<String>,
    k: int,
    i: int,
)
    requires
        call_ensures(LxmfPropagationNode::evict_expired, (node, now), files),
        distinct(old(node)@.entries),
        0 <= k < old(node)@.entries.len(),
        0 <= i < old(node)@.peers.len(),
    ensures
        ({
            let e = old(node)@.entries[k];
            let old_enough = now - e.1.received > 7 * 24 * 60 * 60 * 1_000_000_000;
            &&& final(node)@.entries.contains(e) <==> !old_enough
            &&& old_enough ==> text_views(files@).contains(e.1.filepath@)
            &&& old_enough ==> !final(node)@.peers[i].unhandled.contains(e.0)
            &&& !old_enough ==> (final(node)@.peers[i].unhandled.contains(e.0) <==> old(node)@.peers[i].unhandled.contains(e.0))
        }),
{
    let entries = old(node)@.entries;
    let e = entries[k];
    let test = expired_at(now);
    let gone = entries.filter(test);
    let ids = expired_ids(entries, now);
    crate::octets::lemma_filter_holds(entries, test);
    crate::id_map::law_only_the_named_go(entries, ids, e.0, e);
    law_dropped_messages_are_forgotten(old(node)@.peers, ids, i, e.0);
    assert(entries.contains(e));
    assert(ids.contains(e.0) <==> test(e)) by {
        if ids.contains(e.0) {
            let j = ids.index_of(e.0);
            assert(gone[j].0 == e.0);
            assert(gone.contains(gone[j]));
            let m = entries.index_of(gone[j]);
            if m < k {
                assert(entries[m].0 != entries[k].0);
            } else if k < m {
                assert(entries[k].0 != entries[m].0);
            }
        }
        if test(e) {
            assert(gone.contains(e));
            assert(ids[gone.index_of(e)] == e.0);
        }
    }
    if test(e) {
        assert(gone.contains(e));
        assert(text_views(files@)[gone.index_of(e)] == e.1.filepath@);
    }
}

/// A message is new exactly where it names a recipient and is not stored. Its id
/// is the digest of it, it is for the hash that it begins with, and its stamp is
/// stored behind it.
pub proof fn law_when_a_message_is_new(
    node: &LxmfPropagationNode,
    lxmf_data: &[u8],
    stamp: Option<&[u8]>,
    r: Option<NewMessage>,
)
    requires
        call_ensures(LxmfPropagationNode::prepare_message, (node, lxmf_data, stamp), r),
    ensures
        r is Some <==> lxmf_data@.len() >= 16 && forall|k: int|
            0 <= k < node@.entries.len() ==> (#[trigger] node@.entries[k]).0 != sha256_of(lxmf_data@),
        r matches Some(m) ==> m.transient_id@ == sha256_of(lxmf_data@) && m.destination_hash@ == lxmf_data@.subrange(
            0,
            16,
        ),
        r is Some && stamp is None ==> r->0.file_data@ == lxmf_data@,
        r is Some && stamp is Some ==> r->0.file_data@ == lxmf_data@ + stamp->0@,
{
}

/// A file that is found at the start is taken up under the id of its name for the
/// hash that it begins with, and one that is too short for a message is not.
pub proof fn law_found_file_is_taken_up(
    node: &mut LxmfPropagationNode,
    name: StoredName,
    filepath: String,
    received: u64,
    size: usize,
    file_data: &[u8],
    r: bool,
    other: Seq<u8>,
)
    requires
        call_ensures(LxmfPropagationNode::index_message, (node, name, filepath, received, size, file_data), r),
        distinct(old(node)@.entries),
        other != name.transient_id@,
    ensures
        r <==> file_data@.len() >= 16,
        !r ==> final(node)@ == old(node)@,
        r ==> has_key(final(node)@.entries, name.transient_id@) && value_of(
            final(node)@.entries,
            name.transient_id@,
        ).destination_hash@ == file_data@.subrange(0, 16) && value_of(
            final(node)@.entries,
            name.transient_id@,
        ).received == received && value_of(final(node)@.entries, name.transient_id@).size == size,
        has_key(final(node)@.entries, other) <==> has_key(old(node)@.entries, other),
        final(node)@.peers == old(node)@.peers,
{
    if r {
        law_indexed_message_is_found(
            old(node)@,
            final(node)@,
            name.transient_id@,
            file_data@.take(16),
            filepath@,
            received,
            size,
            name.stamp_value,
            other,
        );
    }
}

} // verus!
