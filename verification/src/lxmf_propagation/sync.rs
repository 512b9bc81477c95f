//! When and what a propagation node pushes to its peers.
use vstd::prelude::*;
use crate::clock::{elapsed, elapsed_of};
use crate::id_map::{has_key, value_of};
use crate::lxmf_propagation::id_queue::ids_without;
use crate::lxmf_propagation::node::{
    has_peer, lemma_with_peer_distinct, peer_of, peer_views, peers_distinct, with_peer, LxmfPropagationNode, NodeView,
    PropagationEntry, Settings,
};
use crate::lxmf_propagation::peer::{key_is_ready, with_all_handled, KeyStep, PeerView, PropPeer};
use crate::lxmf_propagation::requests::{ANSWER_OVERHEAD, MESSAGE_OVERHEAD};
use crate::lxmf_propagation::store::in_order;
use crate::octets::{copied, holds, lemma_filter_ends, lemma_filter_step, views};
use crate::order::{sorted_positions, stable_order};

verus! {

/// How long after the start messages from before it are held back.
pub const STARTUP_BACKLOG_HOLD: u64 = 3_600_000_000_000;

/// How often peers are looked at for a sync.
pub const PEER_SYNC_INTERVAL: u64 = 6_000_000_000;

/// The span for which pushed messages are counted.
pub const OUTBOUND_SYNC_WINDOW: u64 = 60_000_000_000;

/// How long a peer may be silent before it is given up.
pub const MAX_UNREACHABLE: u64 = 1_209_600_000_000_000;

/// The least age by which a message is weighed.
pub const LEAST_WEIGHED_AGE: u64 = 345_600_000_000_000;

/// The most messages in one offer.
pub const MAX_OFFER_IDS: usize = 500;

/// Whether messages from before the start are held back.
pub open spec fn is_backlog_held(n: NodeView, now: u64) -> bool {
    elapsed_of(now, n.started_at) < STARTUP_BACKLOG_HOLD
}

/// The test that an id is in a list.
pub open spec fn listed_in(list: Seq<Seq<u8>>) -> spec_fn(Seq<u8>) -> bool {
    |id: Seq<u8>| list.contains(id)
}

/// The messages that a peer may be offered: during the hold those received
/// since the start that it lacks, and afterwards all that it lacks.
pub open spec fn sync_pool_of(held: bool, fresh: Seq<Seq<u8>>, p: PeerView) -> Seq<Seq<u8>> {
    if held {
        fresh.filter(listed_in(p.unhandled))
    } else {
        p.unhandled
    }
}

/// During the hold only messages received since the start are offered, and
/// every one of those that the peer lacks.
pub proof fn law_only_fresh_messages_during_hold(fresh: Seq<Seq<u8>>, p: PeerView, id: Seq<u8>)
    ensures
        sync_pool_of(true, fresh, p).contains(id) <==> fresh.contains(id) && p.unhandled.contains(id),
        sync_pool_of(false, fresh, p).contains(id) <==> p.unhandled.contains(id),
{
    crate::octets::lemma_filter_holds(fresh, listed_in(p.unhandled));
}

/// What became of the hold.
#[derive(Clone, Copy, Debug, PartialEq, Eq, Structural)]
pub enum HoldNotice {
    /// Nothing that has not been said.
    Nothing,
    /// The hold is on.
    Held,
    /// The hold is over.
    Released,
}

/// What is to be said of the hold of messages from before the start.
pub open spec fn backlog_notice(n: NodeView, now: u64) -> HoldNotice {
    if is_backlog_held(n, now) && !n.backlog_hold_logged {
        HoldNotice::Held
    } else if !is_backlog_held(n, now) && n.backlog_hold_logged {
        HoldNotice::Released
    } else {
        HoldNotice::Nothing
    }
}

/// The node after the hold of messages from before the start was noted.
pub open spec fn backlog_noted(n: NodeView, now: u64) -> NodeView {
    match backlog_notice(n, now) {
        HoldNotice::Held => NodeView { backlog_hold_logged: true, ..n },
        HoldNotice::Released => NodeView { backlog_hold_logged: false, fresh: Seq::empty(), ..n },
        HoldNotice::Nothing => n,
    }
}

/// The node with the count of pushed messages begun anew where its minute is
/// over.
pub open spec fn window_turned(n: NodeView, now: u64) -> NodeView {
    if elapsed_of(now, n.window_start) >= OUTBOUND_SYNC_WINDOW {
        NodeView { window_start: now, window_count: 0, ..n }
    } else {
        n
    }
}

/// Whether the budget of pushed messages is not spent.
pub open spec fn is_sync_allowed(n: NodeView, now: u64) -> bool {
    window_turned(n, now).window_count < n.msgs_per_min
}

/// The node after the budget of pushed messages was looked at.
pub open spec fn budget_checked(n: NodeView, now: u64) -> NodeView {
    NodeView { hold_logged: !is_sync_allowed(n, now), ..window_turned(n, now) }
}

/// Once a minute is over, a budget above nothing is there again.
pub proof fn law_budget_comes_back(n: NodeView, now: u64)
    requires
        now >= n.window_start + OUTBOUND_SYNC_WINDOW,
        n.msgs_per_min > 0,
    ensures
        is_sync_allowed(n, now),
{
}

impl LxmfPropagationNode {
    /// Whether messages from before the start are held back.
    pub fn backlog_held(&self, now: u64) -> (r: bool)
        ensures
            r == is_backlog_held(self@, now),
    {
        elapsed(now, self.started_at) < STARTUP_BACKLOG_HOLD
    }

    /// The messages that a peer may be offered now.
    pub fn sync_pool(&self, peer: &PropPeer, now: u64) -> (r: Vec<Vec<u8>>)
        requires
            peer.wf(),
        ensures
            views(r@) == sync_pool_of(is_backlog_held(self@, now), self@.fresh, peer@),
    {
        LxmfPropagationNode::sync_pool_for(self.backlog_held(now), &self.fresh_since_start, peer)
    }

    /// The messages that a peer may be offered, as [`sync_pool_of`] says.
    pub fn sync_pool_for(backlog_held: bool, fresh_since_start: &Vec<Vec<u8>>, peer: &PropPeer) -> (r: Vec<Vec<u8>>)
        requires
            peer.wf(),
        ensures
            views(r@) == sync_pool_of(backlog_held, views(fresh_since_start@), peer@),
    {
        if !backlog_held {
            return peer.unhandled_ids.to_vec();
        }
        let ghost all = views(fresh_since_start@);
        let ghost keep = listed_in(peer@.unhandled);
        let mut out: Vec<Vec<u8>> = Vec::new();
        let mut i: usize = 0;
        proof {
            lemma_filter_ends(all, keep);
            assert(views(out@) =~= Seq::empty());
        }
        while i < fresh_since_start.len()
            invariant
                peer.wf(),
                0 <= i <= fresh_since_start@.len(),
                all == views(fresh_since_start@),
                keep == listed_in(peer@.unhandled),
                views(out@) == all.take(i as int).filter(keep),
            decreases fresh_since_start@.len() - i,
        {
            proof {
                lemma_filter_step(all, keep, i as int);
            }
            if peer.unhandled_ids.contains(fresh_since_start[i].as_slice()) {
                let item: Vec<u8> = copied(fresh_since_start[i].as_slice());
                let ghost before = out@;
                out.push(item);
                assert(views(out@) =~= views(before).push(item@));
            }
            i += 1;
        }
        proof {
            lemma_filter_ends(all, keep);
        }
        out
    }

    /// Notes that the hold of messages from before the start is on or over,
    /// once each.
    pub fn note_backlog_hold(&mut self, now: u64) -> (r: HoldNotice)
        ensures
            r == backlog_notice(old(self)@, now),
            final(self)@ == backlog_noted(old(self)@, now),
            old(self).wf() ==> final(self).wf(),
    {
        let held: bool = self.backlog_held(now);
        if held && !self.backlog_hold_logged {
            self.backlog_hold_logged = true;
            HoldNotice::Held
        } else if !held && self.backlog_hold_logged {
            self.backlog_hold_logged = false;
            self.fresh_since_start = Vec::new();
            assert(views(self.fresh_since_start@) =~= Seq::empty());
            HoldNotice::Released
        } else {
            HoldNotice::Nothing
        }
    }

    /// Whether a sync may begin: not once the minute's budget of pushed
    /// messages is spent.
    pub fn outbound_sync_allowed(&mut self, now: u64) -> (r: bool)
        ensures
            r == is_sync_allowed(old(self)@, now),
            final(self)@ == budget_checked(old(self)@, now),
            old(self).wf() ==> final(self).wf(),
    {
        if elapsed(now, self.outbound_sync_window_start) >= OUTBOUND_SYNC_WINDOW {
            self.outbound_sync_window_start = now;
            self.outbound_sync_window_count = 0;
        }
        let allowed: bool = self.outbound_sync_window_count < self.outbound_sync_msgs_per_min;
        self.outbound_sync_hold_logged = !allowed;
        allowed
    }
}

/// Whether everything that a sync with a peer needs is known.
pub open spec fn peer_ready(p: PeerView) -> bool {
    p.propagation_stamp_cost is Some && p.propagation_stamp_flexibility is Some && p.peering_cost is Some
        && key_is_ready(p)
}

/// The test that a peer is kept: it is a configured one, or has been heard.
pub open spec fn is_kept(settings: Settings, now: u64) -> spec_fn(PeerView) -> bool {
    |p: PeerView| now <= p.last_heard + MAX_UNREACHABLE || views(settings.static_peers@).contains(p.destination_hash)
}

/// The test that a sync with a peer may begin: none is under way, the peer is
/// there and lacks messages that it may be offered, and its next attempt is
/// due.
pub open spec fn is_candidate(held: bool, fresh: Seq<Seq<u8>>, now: u64) -> spec_fn(PeerView) -> bool {
    |p: PeerView|
        p.state == PropPeer::IDLE && p.unhandled.len() > 0 && p.alive && now >= p.next_sync_attempt && sync_pool_of(
            held,
            fresh,
            p,
        ).len() > 0
}

/// The test that a key for a peer is to be found.
pub open spec fn needs_key() -> spec_fn(PeerView) -> bool {
    |p: PeerView| p.alive && p.peering_cost is Some && !key_is_ready(p)
}

/// The hashes of a list of peers.
pub open spec fn hashes_of(peers: Seq<PeerView>) -> Seq<Seq<u8>> {
    peers.map_values(|p: PeerView| p.destination_hash)
}

/// What is to be done for syncs.
pub enum SyncStep {
    /// It is not time yet.
    Wait,
    /// The budget of pushed messages is spent.
    Held,
    /// Keys are to be found for these peers.
    FindKeys(Vec<Vec<u8>>),
    /// A sync with this peer begins.
    Begin(Vec<u8>),
}

/// What a [`SyncStep`] holds.
pub enum StepView {
    Wait,
    Held,
    FindKeys(Seq<Seq<u8>>),
    Begin(Seq<u8>),
}

impl View for SyncStep {
    type V = StepView;

    open spec fn view(&self) -> StepView {
        match *self {
            SyncStep::Wait => StepView::Wait,
            SyncStep::Held => StepView::Held,
            SyncStep::FindKeys(list) => StepView::FindKeys(views(list@)),
            SyncStep::Begin(hash) => StepView::Begin(hash@),
        }
    }
}

/// The node after peers that have been silent for too long were given up.
pub open spec fn silent_dropped(n: NodeView, now: u64) -> NodeView {
    NodeView { peers: n.peers.filter(is_kept(n.settings, now)), ..n }
}

/// What the node is after it looked at its peers, and what is to be done.
pub open spec fn ticked(n: NodeView, now: u64) -> (NodeView, StepView) {
    if elapsed_of(now, n.last_sync_tick) < PEER_SYNC_INTERVAL {
        (n, StepView::Wait)
    } else {
        let noted = backlog_noted(NodeView { last_sync_tick: now, ..n }, now);
        let checked = budget_checked(noted, now);
        if !is_sync_allowed(noted, now) {
            (checked, StepView::Held)
        } else {
            let after = silent_dropped(checked, now);
            let candidates = after.peers.filter(is_candidate(is_backlog_held(after, now), after.fresh, now));
            if candidates.len() > 0 {
                if peer_ready(candidates[0]) {
                    (after, StepView::Begin(candidates[0].destination_hash))
                } else {
                    (after, StepView::FindKeys(seq![candidates[0].destination_hash]))
                }
            } else {
                (after, StepView::FindKeys(hashes_of(after.peers.filter(needs_key()))))
            }
        }
    }
}

/// A configured peer is never given up for its silence.
pub proof fn law_configured_peers_stay(n: NodeView, now: u64, i: int)
    requires
        0 <= i < n.peers.len(),
        views(n.settings.static_peers@).contains(n.peers[i].destination_hash),
    ensures
        silent_dropped(n, now).peers.contains(n.peers[i]),
{
    crate::octets::lemma_filter_holds(n.peers, is_kept(n.settings, now));
    assert(n.peers.contains(n.peers[i]));
}

/// A sync begins only with a peer whose key is strong enough, that is there
/// and lacks messages, and only within the budget.
pub proof fn law_sync_begins_when_due(n: NodeView, now: u64)
    requires
        ticked(n, now).1 is Begin,
    ensures
        exists|i: int| {
            let p = #[trigger] n.peers[i];
            &&& 0 <= i < n.peers.len()
            &&& ticked(n, now).1 == StepView::Begin(p.destination_hash)
            &&& peer_ready(p)
            &&& p.alive
            &&& p.state == PropPeer::IDLE
            &&& p.unhandled.len() > 0
            &&& now >= p.next_sync_attempt
        },
        ticked(n, now).0.window_count < n.msgs_per_min,
{
    let noted = backlog_noted(NodeView { last_sync_tick: now, ..n }, now);
    let after = silent_dropped(budget_checked(noted, now), now);
    let wanted = is_candidate(is_backlog_held(after, now), after.fresh, now);
    let candidates = after.peers.filter(wanted);
    crate::octets::lemma_filter_holds(after.peers, wanted);
    crate::octets::lemma_filter_holds(n.peers, is_kept(n.settings, now));
    assert(candidates.contains(candidates[0]));
    assert(after.peers.contains(candidates[0]));
    assert(n.peers.contains(candidates[0]));
    let i = n.peers.index_of(candidates[0]);
    assert(n.peers[i] == candidates[0]);
}

/// The first item that passes a test is the first that filtering leaves.
proof fn lemma_first_kept<A>(s: Seq<A>, keep: spec_fn(A) -> bool, i: int)
    requires
        0 <= i < s.len(),
        keep(s[i]),
        forall|j: int| 0 <= j < i ==> !keep(#[trigger] s[j]),
    ensures
        s.filter(keep).len() > 0,
        s.filter(keep)[0] == s[i],
    decreases s.len(),
{
    reveal(Seq::filter);
    let rest = s.drop_last();
    if i == s.len() - 1 {
        lemma_none_kept(rest, keep);
    } else {
        lemma_first_kept(rest, keep, i);
    }
}

/// Filtering leaves nothing where no item passes the test.
proof fn lemma_none_kept<A>(s: Seq<A>, keep: spec_fn(A) -> bool)
    requires
        forall|j: int| 0 <= j < s.len() ==> !keep(#[trigger] s[j]),
    ensures
        s.filter(keep).len() == 0,
    decreases s.len(),
{
    reveal(Seq::filter);
    if s.len() > 0 {
        lemma_none_kept(s.drop_last(), keep);
    }
}

/// What is left of distinct peers is distinct.
pub proof fn lemma_kept_peers_distinct(peers: Seq<PeerView>, keep: spec_fn(PeerView) -> bool)
    requires
        peers_distinct(peers),
    ensures
        peers_distinct(peers.filter(keep)),
    decreases peers.len(),
{
    reveal(Seq::filter);
    if peers.len() > 0 {
        let rest = peers.drop_last();
        lemma_kept_peers_distinct(rest, keep);
        crate::octets::lemma_filter_holds(rest, keep);
        let kept = rest.filter(keep);
        let all = peers.filter(keep);
        assert forall|i: int, j: int| 0 <= i < j < all.len() implies (#[trigger] all[i]).destination_hash != (
        #[trigger] all[j]).destination_hash by {
            if j < kept.len() {
                assert(kept[i].destination_hash != kept[j].destination_hash);
            } else {
                assert(kept.contains(kept[i]));
                let k = rest.index_of(kept[i]);
                assert(peers[k].destination_hash != peers[peers.len() - 1].destination_hash);
            }
        }
    }
}

impl LxmfPropagationNode {
    /// Gives up the peers that have been silent for too long.
    fn drop_silent_peers(&mut self, now: u64)
        requires
            old(self).wf(),
        ensures
            final(self).wf(),
            final(self)@ == silent_dropped(old(self)@, now),
    {
        let ghost before = self@.peers;
        let ghost keep = is_kept(self.settings, now);
        proof {
            lemma_filter_ends(before, keep);
            lemma_kept_peers_distinct(before, keep);
        }
        let mut peers: Vec<PropPeer> = Vec::new();
        let mut kept: Vec<PropPeer> = Vec::new();
        std::mem::swap(&mut self.peers, &mut peers);
        let ghost given = peers@;
        assert(peer_views(kept@) =~= Seq::empty());
        for p in it: peers
            invariant
                it.seq() == given,
                before == peer_views(given),
                keep == is_kept(self.settings, now),
                peer_views(kept@) == before.take(it.index()).filter(keep),
                forall|j: int| 0 <= j < given.len() ==> (#[trigger] given[j]).wf(),
                forall|j: int| 0 <= j < kept@.len() ==> (#[trigger] kept@[j]).wf(),
        {
            let ghost i = it.index();
            proof {
                lemma_filter_step(before, keep, i);
                assert(given[i].wf());
            }
            let heard: bool = now <= p.last_heard || now - p.last_heard <= MAX_UNREACHABLE;
            if heard || holds(self.settings.static_peers.as_slice(), p.destination_hash.as_slice()) {
                let ghost was = kept@;
                let ghost pv = p@;
                kept.push(p);
                assert(peer_views(kept@) =~= peer_views(was).push(pv));
            }
        }
        proof {
            lemma_filter_ends(before, keep);
        }
        self.peers = kept;
    }

    /// The place of the first peer with which a sync may begin.
    fn first_candidate(&self, now: u64) -> (r: Option<usize>)
        requires
            self.wf(),
        ensures
            ({
                let wanted = is_candidate(is_backlog_held(self@, now), self@.fresh, now);
                &&& r is None ==> self@.peers.filter(wanted).len() == 0
                &&& r matches Some(i) ==> i < self.peers@.len() && self@.peers.filter(wanted).len() > 0
                    && self@.peers.filter(wanted)[0] == self@.peers[i as int]
            }),
    {
        let ghost wanted = is_candidate(is_backlog_held(self@, now), self@.fresh, now);
        let ghost all = self@.peers;
        let mut i: usize = 0;
        while i < self.peers.len()
            invariant
                self.wf(),
                0 <= i <= self.peers@.len(),
                all == self@.peers,
                wanted == is_candidate(is_backlog_held(self@, now), self@.fresh, now),
                forall|j: int| 0 <= j < i ==> !wanted(#[trigger] all[j]),
            decreases self.peers@.len() - i,
        {
            let p: &PropPeer = &self.peers[i];
            assert(all[i as int] == p@);
            if p.state == PropPeer::IDLE && !p.unhandled_ids.is_empty() && p.alive && now >= p.next_sync_attempt {
                let pool: Vec<Vec<u8>> = self.sync_pool(p, now);
                assert(views(pool@).len() == pool@.len());
                if pool.len() > 0 {
                    proof {
                        lemma_first_kept(all, wanted, i as int);
                    }
                    return Some(i);
                }
            }
            i += 1;
        }
        proof {
            lemma_none_kept(all, wanted);
        }
        None
    }

    /// The peers for which a key is to be found.
    fn key_needs(&self) -> (r: Vec<Vec<u8>>)
        ensures
            views(r@) == hashes_of(self@.peers.filter(needs_key())),
    {
        let ghost keep = needs_key();
        let ghost all = self@.peers;
        let mut out: Vec<Vec<u8>> = Vec::new();
        let mut i: usize = 0;
        proof {
            lemma_filter_ends(all, keep);
            assert(views(out@) =~= hashes_of(all.take(0).filter(keep)));
        }
        while i < self.peers.len()
            invariant
                0 <= i <= self.peers@.len(),
                all == self@.peers,
                keep == needs_key(),
                views(out@) == hashes_of(all.take(i as int).filter(keep)),
            decreases self.peers@.len() - i,
        {
            proof {
                lemma_filter_step(all, keep, i as int);
            }
            let ghost kept = all.take(i as int).filter(keep);
            let p: &PropPeer = &self.peers[i];
            assert(all[i as int] == p@);
            if p.alive && p.peering_cost.is_some() && !p.peering_key_ready() {
                let ghost before = out@;
                let hash: Vec<u8> = copied(p.destination_hash.as_slice());
                out.push(hash);
                assert(views(out@) =~= views(before).push(hash@));
                assert(hashes_of(kept.push(p@)) =~= hashes_of(kept).push(p@.destination_hash));
            }
            i += 1;
        }
        proof {
            lemma_filter_ends(all, keep);
        }
        out
    }

    /// Looks at the peers, as [`ticked`] says: at most one sync begins.
    pub fn tick_sync(&mut self, now: u64) -> (r: SyncStep)
        requires
            old(self).wf(),
        ensures
            final(self).wf(),
            final(self)@ == ticked(old(self)@, now).0,
            r@ == ticked(old(self)@, now).1,
    {
        if elapsed(now, self.last_sync_tick) < PEER_SYNC_INTERVAL {
            return SyncStep::Wait;
        }
        self.last_sync_tick = now;
        self.note_backlog_hold(now);
        if !self.outbound_sync_allowed(now) {
            return SyncStep::Held;
        }
        self.drop_silent_peers(now);
        match self.first_candidate(now) {
            Some(i) => {
                let hash: Vec<u8> = copied(self.peers[i].destination_hash.as_slice());
                if self.peers[i].sync_ready() {
                    SyncStep::Begin(hash)
                } else {
                    let list: Vec<Vec<u8>> = vec![hash];
                    assert(views(list@) =~= seq![hash@]);
                    SyncStep::FindKeys(list)
                }
            },
            None => SyncStep::FindKeys(self.key_needs()),
        }
    }
}

/// A peering key that is to be found.
pub struct KeyJob {
    /// The peer that it is for.
    pub peer_hash: Vec<u8>,
    /// The proof-of-work value that it is to reach.
    pub cost: u32,
    /// What it is bound to.
    pub material: Vec<u8>,
}

/// Whether the search for a peer's key begins: none is under way, the peer is
/// known with its cost and its identity, and its key is not strong enough.
pub open spec fn key_search_begins(n: NodeView, hash: Seq<u8>, identity_known: bool) -> bool {
    &&& !n.in_flight.contains(hash)
    &&& has_peer(n.peers, hash)
    &&& peer_of(n.peers, hash).peering_cost is Some
    &&& !key_is_ready(peer_of(n.peers, hash))
    &&& identity_known
}

impl LxmfPropagationNode {
    /// Begins the search for a peer's key, given the peer's identity hash
    /// where it is known. No second search for a peer begins while one is
    /// under way.
    pub fn begin_key(&mut self, hash: &[u8], identity_hash: Option<&[u8]>) -> (r: Option<KeyJob>)
        requires
            old(self).wf(),
        ensures
            final(self).wf(),
            r is Some <==> key_search_begins(old(self)@, hash@, identity_hash is Some),
            r is None ==> final(self)@ == old(self)@,
            r matches Some(job) ==> job.peer_hash@ == hash@ && Some(job.cost) == peer_of(
                old(self)@.peers,
                hash@,
            ).peering_cost && job.material@ == identity_hash->0@ + old(self).settings.identity_hash@ && final(self)@
                == (NodeView { in_flight: old(self)@.in_flight.push(hash@), ..old(self)@ }),
    {
        if self.in_flight_keys.contains(hash) {
            return None;
        }
        let i: usize = match self.position(hash) {
            Some(i) => i,
            None => return None,
        };
        let step: KeyStep = self.peers[i].key_step(identity_hash, Some(self.settings.identity_hash.as_slice()));
        match step {
            KeyStep::Generate { cost, material } => {
                self.in_flight_keys.push_unique(copied(hash));
                Some(KeyJob { peer_hash: copied(hash), cost, material })
            },
            _ => None,
        }
    }

    /// Ends the search for a peer's key, with the key that was found if any.
    /// Says whether the peer has it now: it must be as strong as it was meant
    /// to be.
    pub fn finish_key(&mut self, hash: &[u8], cost: u32, key: Option<Vec<u8>>, value: u32) -> (r: bool)
        requires
            old(self).wf(),
        ensures
            final(self).wf(),
            r == (value >= cost && key is Some && has_peer(old(self)@.peers, hash@)),
            final(self)@ == (NodeView {
                in_flight: ids_without(old(self)@.in_flight, hash@),
                peers: if r {
                    with_peer(
                        old(self)@.peers,
                        hash@,
                        PeerView {
                            peering_key: Some((key->0@, value)),
                            ..peer_of(old(self)@.peers, hash@)
                        },
                    )
                } else {
                    old(self)@.peers
                },
                ..old(self)@
            }),
    {
        self.in_flight_keys.remove(hash);
        let ghost before = self@.peers;
        match self.position(hash) {
            Some(i) => {
                let ghost was = self.peers@;
                let accepted: bool = self.peers[i].accept_key(cost, key, value);
                proof {
                    assert(self@.peers =~= before.update(i as int, self.peers@[i as int]@));
                    lemma_with_peer_distinct(before, hash@, self.peers@[i as int]@);
                    if !accepted {
                        assert(before.update(i as int, before[i as int]) =~= before);
                    }
                }
                accepted
            },
            None => false,
        }
    }
}

/// The messages of a list that are stored, in order.
pub open spec fn known_of(entries: Seq<(Seq<u8>, PropagationEntry)>, ids: Seq<Seq<u8>>) -> Seq<
    (Seq<u8>, PropagationEntry),
>
    decreases ids.len(),
{
    if ids.len() == 0 {
        Seq::empty()
    } else {
        let rest = known_of(entries, ids.drop_last());
        if has_key(entries, ids.last()) {
            rest.push((ids.last(), value_of(entries, ids.last())))
        } else {
            rest
        }
    }
}

/// The weight of a message in an offer: its age, counted as no less than four
/// days, times its size.
pub open spec fn weight_of(e: PropagationEntry, now: u64) -> nat {
    let age = elapsed_of(now, e.received);
    ((if age > LEAST_WEIGHED_AGE {
        age
    } else {
        LEAST_WEIGHED_AGE as int
    }) * e.size) as nat
}

/// The weights of the messages of a list.
pub open spec fn weight_keys(entries: Seq<(Seq<u8>, PropagationEntry)>, now: u64) -> Seq<u128> {
    entries.map_values(|e: (Seq<u8>, PropagationEntry)| weight_of(e.1, now) as u128)
}

/// The places of messages, lightest first.
pub open spec fn weight_order(entries: Seq<(Seq<u8>, PropagationEntry)>, now: u64) -> Seq<usize> {
    choose|order: Seq<usize>| stable_order(weight_keys(entries, now), order)
}

/// A weight is small enough for a key.
proof fn lemma_weight_fits(e: PropagationEntry, now: u64)
    ensures
        weight_of(e, now) <= u128::MAX,
{
    let age = elapsed_of(now, e.received);
    let weighed = if age > LEAST_WEIGHED_AGE {
        age
    } else {
        LEAST_WEIGHED_AGE as int
    };
    assert(0 <= weighed * e.size <= u64::MAX * u64::MAX) by (nonlinear_arith)
        requires
            0 <= weighed <= u64::MAX,
            0 <= e.size <= u64::MAX,
    ;
}

/// The messages of an offer are taken lightest first.
pub proof fn law_lightest_is_offered_first(entries: Seq<(Seq<u8>, PropagationEntry)>, now: u64, i: int, j: int)
    requires
        entries.len() <= usize::MAX,
        0 <= i < j < entries.len(),
    ensures
        stable_order(weight_keys(entries, now), weight_order(entries, now)),
        ({
            let sorted = in_order(entries, weight_order(entries, now));
            weight_of(sorted[i].1, now) <= weight_of(sorted[j].1, now)
        }),
{
    let keys = weight_keys(entries, now);
    crate::order::law_stable_order_exists(keys);
    let order = weight_order(entries, now);
    assert(crate::order::precedes(keys, order[i] as int, order[j] as int));
    lemma_weight_fits(entries[order[i] as int].1, now);
    lemma_weight_fits(entries[order[j] as int].1, now);
}

/// The messages that go into an offer, the bytes that they take up, and those
/// that are too large for the peer.
pub struct OfferPlan {
    pub ids: Seq<Seq<u8>>,
    pub size: nat,
    pub too_big: Seq<Seq<u8>>,
}

/// What goes into an offer out of messages in order: each that the peer takes
/// and that leaves the offer below the limit for a sync, until the offer is
/// full.
pub open spec fn offer_plan(
    sorted: Seq<(Seq<u8>, PropagationEntry)>,
    transfer_limit: Option<u64>,
    sync_limit: Option<u64>,
) -> OfferPlan
    decreases sorted.len(),
{
    if sorted.len() == 0 {
        OfferPlan { ids: Seq::empty(), size: ANSWER_OVERHEAD as nat, too_big: Seq::empty() }
    } else {
        let rest = offer_plan(sorted.drop_last(), transfer_limit, sync_limit);
        let (id, entry) = sorted.last();
        let size = entry.size as nat + MESSAGE_OVERHEAD as nat;
        if rest.ids.len() >= MAX_OFFER_IDS {
            rest
        } else if transfer_limit matches Some(most) && size > most {
            OfferPlan { too_big: rest.too_big.push(id), ..rest }
        } else if sync_limit matches Some(most) && rest.size + size >= most {
            rest
        } else {
            OfferPlan { ids: rest.ids.push(id), size: rest.size + size, ..rest }
        }
    }
}

/// No offer holds more messages than an offer may, nor reaches the peer's
/// limit for a sync.
pub proof fn law_offer_is_within_limits(
    sorted: Seq<(Seq<u8>, PropagationEntry)>,
    transfer_limit: Option<u64>,
    sync_limit: Option<u64>,
)
    ensures
        offer_plan(sorted, transfer_limit, sync_limit).ids.len() <= MAX_OFFER_IDS,
        offer_plan(sorted, transfer_limit, sync_limit).ids.len() > 0 && sync_limit is Some ==> offer_plan(
            sorted,
            transfer_limit,
            sync_limit,
        ).size < sync_limit->0,
    decreases sorted.len(),
{
    if sorted.len() > 0 {
        law_offer_is_within_limits(sorted.drop_last(), transfer_limit, sync_limit);
    }
}

/// What is offered to a peer out of the messages of `pool`.
pub open spec fn offer_for(
    entries: Seq<(Seq<u8>, PropagationEntry)>,
    pool: Seq<Seq<u8>>,
    p: PeerView,
    now: u64,
) -> OfferPlan {
    let known = known_of(entries, pool);
    offer_plan(
        in_order(known, weight_order(known, now)),
        p.propagation_transfer_limit,
        p.propagation_sync_limit,
    )
}

/// Whether a peer is one that an offer can be built for.
pub open spec fn takes_offer(n: NodeView, hash: Seq<u8>) -> bool {
    &&& has_peer(n.peers, hash)
    &&& peer_of(n.peers, hash).state == PropPeer::IDLE
    &&& peer_of(n.peers, hash).peering_key is Some
}

/// The offer for a peer now.
pub open spec fn offer_now(n: NodeView, hash: Seq<u8>, now: u64) -> OfferPlan {
    let p = peer_of(n.peers, hash);
    offer_for(n.entries, sync_pool_of(is_backlog_held(n, now), n.fresh, p), p, now)
}

/// A message of known size and weight.
struct Weighed {
    id: Vec<u8>,
    size: usize,
}

fn weight(received: u64, size: usize, now: u64) -> (r: u128)
    ensures
        forall|e: PropagationEntry| e.received == received && e.size == size ==> r == #[trigger] weight_of(e, now),
{
    let age: u64 = elapsed(now, received);
    let counted: u64 = if age > LEAST_WEIGHED_AGE {
        age
    } else {
        LEAST_WEIGHED_AGE
    };
    proof {
        assert(0 <= counted * size <= u64::MAX * u64::MAX) by (nonlinear_arith);
    }
    (counted as u128) * (size as u128)
}

impl LxmfPropagationNode {
    /// The messages of a list that are stored, with their weights.
    fn weigh(&self, pool: &Vec<Vec<u8>>, now: u64) -> (r: (Vec<Weighed>, Vec<u128>))
        requires
            self.wf(),
        ensures
            r.0@.len() == known_of(self@.entries, views(pool@)).len(),
            forall|j: int|
                0 <= j < r.0@.len() ==> (#[trigger] r.0@[j]).id@ == known_of(self@.entries, views(pool@))[j].0
                    && r.0@[j].size == known_of(self@.entries, views(pool@))[j].1.size,
            r.1@ == weight_keys(known_of(self@.entries, views(pool@)), now),
    {
        let ghost ids = views(pool@);
        let ghost entries = self@.entries;
        let mut out: Vec<Weighed> = Vec::new();
        let mut keys: Vec<u128> = Vec::new();
        let mut i: usize = 0;
        assert(keys@ =~= weight_keys(known_of(entries, ids.take(0)), now));
        while i < pool.len()
            invariant
                self.wf(),
                entries == self@.entries,
                ids == views(pool@),
                0 <= i <= pool@.len(),
                out@.len() == known_of(entries, ids.take(i as int)).len(),
                forall|j: int|
                    0 <= j < out@.len() ==> (#[trigger] out@[j]).id@ == known_of(entries, ids.take(i as int))[j].0
                        && out@[j].size == known_of(entries, ids.take(i as int))[j].1.size,
                keys@ == weight_keys(known_of(entries, ids.take(i as int)), now),
            decreases pool@.len() - i,
        {
            let ghost rest = known_of(entries, ids.take(i as int));
            proof {
                assert(ids.take(i + 1).drop_last() =~= ids.take(i as int));
                assert(ids.take(i + 1).last() == pool@[i as int]@);
            }
            if let Some(entry) = self.entries.get(pool[i].as_slice()) {
                let w: u128 = weight(entry.received, entry.size, now);
                out.push(Weighed { id: copied(pool[i].as_slice()), size: entry.size });
                keys.push(w);
                proof {
                    let e = (ids[i as int], value_of(entries, ids[i as int]));
                    assert(weight_keys(rest.push(e), now) =~= weight_keys(rest, now).push(weight_of(e.1, now) as u128));
                }
            }
            i += 1;
        }
        assert(ids.take(ids.len() as int) =~= ids);
        (out, keys)
    }

    /// Builds the offer for a peer, as [`offer_now`] says. Messages that are
    /// too large for the peer are marked as if the peer had them. There is
    /// none where the peer is not known, has an exchange under way, has no
    /// key, or lacks nothing that fits.
    pub fn build_offer(&mut self, hash: &[u8], now: u64) -> (r: Option<Vec<Vec<u8>>>)
        requires
            old(self).wf(),
        ensures
            final(self).wf(),
            r is Some <==> takes_offer(old(self)@, hash@) && offer_now(old(self)@, hash@, now).ids.len() > 0,
            r matches Some(ids) ==> views(ids@) == offer_now(old(self)@, hash@, now).ids,
            final(self)@ == (if takes_offer(old(self)@, hash@) {
                NodeView {
                    peers: with_peer(
                        old(self)@.peers,
                        hash@,
                        with_all_handled(
                            peer_of(old(self)@.peers, hash@),
                            offer_now(old(self)@, hash@, now).too_big,
                        ),
                    ),
                    ..old(self)@
                }
            } else {
                old(self)@
            }),
    {
        let i: usize = match self.position(hash) {
            Some(i) => i,
            None => return None,
        };
        if self.peers[i].state != PropPeer::IDLE || self.peers[i].peering_key.is_none() {
            return None;
        }
        let ghost before = self@;
        let ghost p = before.peers[i as int];
        let pool: Vec<Vec<u8>> = self.sync_pool(&self.peers[i], now);
        let (known, keys): (Vec<Weighed>, Vec<u128>) = self.weigh(&pool, now);
        let ghost listed = known_of(before.entries, views(pool@));
        let order: Vec<usize> = sorted_positions(&keys);
        proof {
            crate::order::law_stable_order_is_unique(keys@, order@, weight_order(listed, now));
        }
        let (ids, too_big): (Vec<Vec<u8>>, Vec<Vec<u8>>) = fill_offer(
            &known,
            &order,
            self.peers[i].propagation_transfer_limit,
            self.peers[i].propagation_sync_limit,
            Ghost(listed),
        );
        self.peers[i].mark_all_handled(&too_big);
        proof {
            let marked = with_all_handled(p, views(too_big@));
            lemma_all_handled_hash(p, views(too_big@));
            assert(self@.peers =~= before.peers.update(i as int, marked));
            lemma_with_peer_distinct(before.peers, hash@, marked);
            assert(views(ids@).len() == ids@.len());
        }
        if ids.len() == 0 {
            None
        } else {
            Some(ids)
        }
    }

    /// Builds the offer for a peer and notes that a sync was tried.
    pub fn initiate_sync(&mut self, hash: &[u8], now: u64) -> (r: Option<Vec<Vec<u8>>>)
        requires
            old(self).wf(),
        ensures
            final(self).wf(),
            ({
                let tried = if has_peer(old(self)@.peers, hash@) {
                    NodeView {
                        peers: with_peer(
                            old(self)@.peers,
                            hash@,
                            PeerView { last_sync_attempt: now, ..peer_of(old(self)@.peers, hash@) },
                        ),
                        ..old(self)@
                    }
                } else {
                    old(self)@
                };
                &&& r is Some <==> takes_offer(tried, hash@) && offer_now(tried, hash@, now).ids.len() > 0
                &&& r matches Some(ids) ==> views(ids@) == offer_now(tried, hash@, now).ids
                &&& final(self)@ == (if takes_offer(tried, hash@) {
                    NodeView {
                        peers: with_peer(
                            tried.peers,
                            hash@,
                            with_all_handled(
                                peer_of(tried.peers, hash@),
                                offer_now(tried, hash@, now).too_big,
                            ),
                        ),
                        ..tried
                    }
                } else {
                    tried
                })
            }),
    {
        let ghost before = self@.peers;
        if let Some(i) = self.position(hash) {
            self.peers[i].last_sync_attempt = now;
            proof {
                let p = PeerView { last_sync_attempt: now, ..before[i as int] };
                assert(self@.peers =~= before.update(i as int, p));
                lemma_with_peer_distinct(before, hash@, p);
            }
        }
        self.build_offer(hash, now)
    }
}

/// Marking messages does not change who the peer is.
pub proof fn lemma_all_handled_hash(p: PeerView, ids: Seq<Seq<u8>>)
    ensures
        with_all_handled(p, ids).destination_hash == p.destination_hash,
        with_all_handled(p, ids).link == p.link,
        with_all_handled(p, ids).last_offer == p.last_offer,
        with_all_handled(p, ids) == (PeerView {
            handled: with_all_handled(p, ids).handled,
            unhandled: with_all_handled(p, ids).unhandled,
            ..p
        }),
    decreases ids.len(),
{
    if ids.len() > 0 {
        lemma_all_handled_hash(p, ids.drop_last());
    }
}

fn fill_offer(
    known: &Vec<Weighed>,
    order: &Vec<usize>,
    transfer_limit: Option<u64>,
    sync_limit: Option<u64>,
    Ghost(listed): Ghost<Seq<(Seq<u8>, PropagationEntry)>>,
) -> (r: (Vec<Vec<u8>>, Vec<Vec<u8>>))
    requires
        known@.len() == listed.len(),
        forall|j: int|
            0 <= j < known@.len() ==> (#[trigger] known@[j]).id@ == listed[j].0 && known@[j].size == listed[j].1.size,
        forall|j: int| 0 <= j < order@.len() ==> (#[trigger] order@[j]) < known@.len(),
    ensures
        views(r.0@) == offer_plan(in_order(listed, order@), transfer_limit, sync_limit).ids,
        views(r.1@) == offer_plan(in_order(listed, order@), transfer_limit, sync_limit).too_big,
{
    let ghost sorted = in_order(listed, order@);
    let mut ids: Vec<Vec<u8>> = Vec::new();
    let mut too_big: Vec<Vec<u8>> = Vec::new();
    let mut size: u128 = ANSWER_OVERHEAD as u128;
    let mut i: usize = 0;
    assert(views(ids@) =~= Seq::empty());
    assert(views(too_big@) =~= Seq::empty());
    while i < order.len()
        invariant
            0 <= i <= order@.len(),
            sorted == in_order(listed, order@),
            known@.len() == listed.len(),
            forall|j: int|
                0 <= j < known@.len() ==> (#[trigger] known@[j]).id@ == listed[j].0 && known@[j].size
                    == listed[j].1.size,
            forall|j: int| 0 <= j < order@.len() ==> (#[trigger] order@[j]) < known@.len(),
            ids@.len() <= MAX_OFFER_IDS,
            views(ids@) == offer_plan(sorted.take(i as int), transfer_limit, sync_limit).ids,
            views(too_big@) == offer_plan(sorted.take(i as int), transfer_limit, sync_limit).too_big,
            size == offer_plan(sorted.take(i as int), transfer_limit, sync_limit).size,
            size <= ANSWER_OVERHEAD + ids@.len() * (usize::MAX + MESSAGE_OVERHEAD),
        decreases order@.len() - i,
    {
        let p: usize = order[i];
        proof {
            assert(sorted.take(i + 1).drop_last() =~= sorted.take(i as int));
            assert(sorted.take(i + 1).last() == listed[p as int]);
            assert(views(ids@).len() == ids@.len());
        }
        if ids.len() < MAX_OFFER_IDS {
            proof {
                assert(ids@.len() * (usize::MAX + MESSAGE_OVERHEAD) + (usize::MAX + MESSAGE_OVERHEAD) == (ids@.len()
                    + 1) * (usize::MAX + MESSAGE_OVERHEAD)) by (nonlinear_arith);
                assert((ids@.len() + 1) * (usize::MAX + MESSAGE_OVERHEAD) <= 500 * (u64::MAX + 16)) by (nonlinear_arith)
                    requires
                        ids@.len() + 1 <= 500,
                        MESSAGE_OVERHEAD == 16,
                ;
            }
            let item: &Weighed = &known[p];
            let taken: u128 = item.size as u128 + MESSAGE_OVERHEAD as u128;
            let next: u128 = size + taken;
            let is_too_big: bool = match transfer_limit {
                Some(most) => taken > most as u128,
                None => false,
            };
            let leaves_room: bool = match sync_limit {
                Some(most) => next < most as u128,
                None => true,
            };
            if is_too_big {
                let ghost was = too_big@;
                let id: Vec<u8> = copied(item.id.as_slice());
                too_big.push(id);
                assert(views(too_big@) =~= views(was).push(id@));
            } else if leaves_room {
                let ghost was = ids@;
                let id: Vec<u8> = copied(item.id.as_slice());
                ids.push(id);
                size = next;
                assert(views(ids@) =~= views(was).push(id@));
            }
        }
        i += 1;
    }
    assert(sorted.take(order@.len() as int) =~= sorted);
    (ids, too_big)
}

/// What is from before the start is held back for an hour.
pub proof fn law_hold_lasts_an_hour(n: NodeView, now: u64)
    ensures
        is_backlog_held(n, now) <==> now - n.started_at < 60 * 60 * 1_000_000_000,
{
}

/// That the hold is on is said once, and that it is over once, and then what
/// came since the start counts no more than the rest.
pub proof fn law_hold_is_noted_once(n: NodeView, now: u64)
    ensures
        ({
            let held = now - n.started_at < 60 * 60 * 1_000_000_000;
            let after = backlog_noted(n, now);
            &&& backlog_notice(n, now) is Held <==> held && !n.backlog_hold_logged
            &&& backlog_notice(n, now) is Released <==> !held && n.backlog_hold_logged
            &&& after.backlog_hold_logged == held
            &&& backlog_notice(after, now) is Nothing
            &&& after.fresh == (if !held && n.backlog_hold_logged {
                Seq::empty()
            } else {
                n.fresh
            })
            &&& after == (NodeView { backlog_hold_logged: held, fresh: after.fresh, ..n })
        }),
{
}

/// A sync is within the budget exactly where fewer messages were pushed since
/// the minute began than may be in a minute. A minute that is over begins anew
/// with none pushed.
pub proof fn law_budget_is_per_minute(n: NodeView, now: u64)
    ensures
        now - n.window_start >= 60 * 1_000_000_000 ==> window_turned(n, now).window_start == now && window_turned(
            n,
            now,
        ).window_count == 0 && (is_sync_allowed(n, now) <==> n.msgs_per_min > 0),
        now - n.window_start < 60 * 1_000_000_000 ==> window_turned(n, now) == n && (is_sync_allowed(n, now)
            <==> n.window_count < n.msgs_per_min),
        budget_checked(n, now).hold_logged <==> !is_sync_allowed(n, now),
        window_turned(n, now).peers == n.peers,
        budget_checked(n, now).peers == n.peers,
{
}

/// A peer is given up exactly where it was not heard for more than fourteen days
/// and is not configured.
pub proof fn law_silent_peers_are_given_up(n: NodeView, now: u64, p: PeerView)
    ensures
        silent_dropped(n, now).peers.contains(p) <==> n.peers.contains(p) && (now - p.last_heard <= 14 * 24 * 60 * 60
            * 1_000_000_000 || exists|i: int|
            0 <= i < n.settings.static_peers@.len() && (#[trigger] n.settings.static_peers@[i])@ == p.destination_hash),
        silent_dropped(n, now) == (NodeView { peers: silent_dropped(n, now).peers, ..n }),
{
    crate::octets::lemma_filter_holds(n.peers, is_kept(n.settings, now));
    lemma_configured(n.settings, p.destination_hash);
}

proof fn lemma_configured(settings: Settings, hash: Seq<u8>)
    ensures
        views(settings.static_peers@).contains(hash) <==> exists|i: int|
            0 <= i < settings.static_peers@.len() && (#[trigger] settings.static_peers@[i])@ == hash,
{
    let list = views(settings.static_peers@);
    if list.contains(hash) {
        assert(settings.static_peers@[list.index_of(hash)]@ == hash);
    }
    if exists|i: int| 0 <= i < settings.static_peers@.len() && (#[trigger] settings.static_peers@[i])@ == hash {
        let i = choose|i: int|
            0 <= i < settings.static_peers@.len() && (#[trigger] settings.static_peers@[i])@ == hash;
        assert(list[i] == hash);
    }
}

proof fn lemma_filter_twice<A>(s: Seq<A>, one: spec_fn(A) -> bool, two: spec_fn(A) -> bool, both: spec_fn(A) -> bool)
    requires
        forall|a: A| #[trigger] both(a) <==> one(a) && two(a),
    ensures
        s.filter(one).filter(two) == s.filter(both),
    decreases s.len(),
{
    reveal(Seq::filter);
    if s.len() > 0 {
        let rest = s.drop_last();
        lemma_filter_twice(rest, one, two, both);
        assert(both(s.last()) <==> one(s.last()) && two(s.last()));
        if one(s.last()) {
            assert(s.filter(one).drop_last() =~= rest.filter(one));
        }
    }
}

/// The node looks for work every six seconds and not sooner. Where the budget
/// is used up it does nothing.
pub proof fn law_when_the_node_looks_for_work(n: NodeView, now: u64)
    ensures
        ({
            let due = now - n.last_sync_tick >= 6 * 1_000_000_000;
            let budget = if now - n.window_start >= 60 * 1_000_000_000 {
                n.msgs_per_min > 0
            } else {
                n.window_count < n.msgs_per_min
            };
            &&& !due ==> ticked(n, now) == (n, StepView::Wait)
            &&& due ==> ticked(n, now).0.last_sync_tick == now
            &&& due && !budget ==> ticked(n, now).1 is Held && ticked(n, now).0.peers == n.peers
            &&& due && budget ==> ticked(n, now).1 is Begin || ticked(n, now).1 is FindKeys
        }),
{
}

/// The node syncs with the first peer that is due: one that is still kept, at
/// rest, alive and past the time until which it is left alone, and that lacks a
/// message, one from since the start while the rest is held back. Where the key
/// for it is not there yet, the node looks for that.
pub proof fn law_first_due_peer_is_synced(n: NodeView, now: u64, k: int, due: spec_fn(PeerView) -> bool)
    requires
        ticked(n, now).1 is Begin || ticked(n, now).1 is FindKeys,
        forall|p: PeerView| #[trigger]
            due(p) <==> {
                &&& now - p.last_heard <= 14 * 24 * 60 * 60 * 1_000_000_000 || exists|i: int|
                    0 <= i < n.settings.static_peers@.len() && (#[trigger] n.settings.static_peers@[i])@
                        == p.destination_hash
                &&& p.state == PropPeer::IDLE
                &&& p.alive
                &&& now >= p.next_sync_attempt
                &&& p.unhandled.len() > 0
                &&& now - n.started_at < 60 * 60 * 1_000_000_000 ==> exists|id: Seq<u8>| #[trigger]
                    n.fresh.contains(id) && p.unhandled.contains(id)
            },
        0 <= k < n.peers.len(),
        due(n.peers[k]),
        forall|j: int| 0 <= j < k ==> !due(#[trigger] n.peers[j]),
    ensures
        ({
            let p = n.peers[k];
            let ready = p.propagation_stamp_cost is Some && p.propagation_stamp_flexibility is Some
                && (p.peering_cost matches Some(cost) && (p.peering_key matches Some(key) && key.1 >= cost));
            &&& ready ==> ticked(n, now).1 == StepView::Begin(p.destination_hash)
            &&& !ready ==> ticked(n, now).1 == StepView::FindKeys(seq![p.destination_hash])
        }),
{
    let noted = backlog_noted(NodeView { last_sync_tick: now, ..n }, now);
    let after = silent_dropped(budget_checked(noted, now), now);
    let held = is_backlog_held(after, now);
    let wanted = is_candidate(held, after.fresh, now);
    let kept = is_kept(n.settings, now);
    assert forall|p: PeerView| #[trigger] due(p) <==> kept(p) && wanted(p) by {
        lemma_configured(n.settings, p.destination_hash);
        let pool = sync_pool_of(held, after.fresh, p);
        law_pool_is_not_empty(after.fresh, p);
        if held {
            assert(after.fresh == n.fresh);
        }
    }
    lemma_filter_twice(n.peers, kept, wanted, due);
    lemma_first_kept(n.peers, due, k);
    assert(budget_checked(noted, now).peers == n.peers);
    assert(after.peers.filter(wanted)[0] == n.peers[k]);
}

/// There is something to offer during the hold exactly where a message that came
/// since the start is lacked.
pub proof fn law_pool_is_not_empty(fresh: Seq<Seq<u8>>, p: PeerView)
    ensures
        sync_pool_of(true, fresh, p).len() > 0 <==> exists|id: Seq<u8>| #[trigger]
            fresh.contains(id) && p.unhandled.contains(id),
        sync_pool_of(false, fresh, p) == p.unhandled,
{
    let pool = sync_pool_of(true, fresh, p);
    crate::octets::lemma_filter_holds(fresh, listed_in(p.unhandled));
    if pool.len() > 0 {
        assert(pool.contains(pool[0]));
        assert(fresh.contains(pool[0]));
    }
    if exists|id: Seq<u8>| #[trigger] fresh.contains(id) && p.unhandled.contains(id) {
        let id = choose|id: Seq<u8>| #[trigger] fresh.contains(id) && p.unhandled.contains(id);
        assert(listed_in(p.unhandled)(id));
        assert(pool.contains(id));
    }
}

/// Where no peer is due, the node looks for the keys of the peers that are alive
/// and whose key it has not got, in their order.
pub proof fn law_keys_are_looked_for_meanwhile(
    n: NodeView,
    now: u64,
    due: spec_fn(PeerView) -> bool,
    keyless: spec_fn(PeerView) -> bool,
)
    requires
        ticked(n, now).1 is Begin || ticked(n, now).1 is FindKeys,
        forall|p: PeerView| #[trigger]
            due(p) <==> {
                &&& now - p.last_heard <= 14 * 24 * 60 * 60 * 1_000_000_000 || exists|i: int|
                    0 <= i < n.settings.static_peers@.len() && (#[trigger] n.settings.static_peers@[i])@
                        == p.destination_hash
                &&& p.state == PropPeer::IDLE
                &&& p.alive
                &&& now >= p.next_sync_attempt
                &&& p.unhandled.len() > 0
                &&& now - n.started_at < 60 * 60 * 1_000_000_000 ==> exists|id: Seq<u8>| #[trigger]
                    n.fresh.contains(id) && p.unhandled.contains(id)
            },
        forall|p: PeerView| #[trigger]
            keyless(p) <==> {
                &&& now - p.last_heard <= 14 * 24 * 60 * 60 * 1_000_000_000 || exists|i: int|
                    0 <= i < n.settings.static_peers@.len() && (#[trigger] n.settings.static_peers@[i])@
                        == p.destination_hash
                &&& p.alive
                &&& p.peering_cost is Some
                &&& !(p.peering_key matches Some(key) && key.1 >= p.peering_cost->0)
            },
        forall|j: int| 0 <= j < n.peers.len() ==> !due(#[trigger] n.peers[j]),
    ensures
        ticked(n, now).1 is FindKeys,
        ticked(n, now).1->FindKeys_0.len() == n.peers.filter(keyless).len(),
        forall|i: int|
            0 <= i < n.peers.filter(keyless).len() ==> #[trigger] ticked(n, now).1->FindKeys_0[i] == n.peers.filter(
                keyless,
            )[i].destination_hash,
{
    let noted = backlog_noted(NodeView { last_sync_tick: now, ..n }, now);
    let after = silent_dropped(budget_checked(noted, now), now);
    let held = is_backlog_held(after, now);
    let wanted = is_candidate(held, after.fresh, now);
    let kept = is_kept(n.settings, now);
    assert forall|p: PeerView| #[trigger] due(p) <==> kept(p) && wanted(p) by {
        lemma_configured(n.settings, p.destination_hash);
        let pool = sync_pool_of(held, after.fresh, p);
        law_pool_is_not_empty(after.fresh, p);
        if held {
            assert(after.fresh == n.fresh);
        }
    }
    assert forall|p: PeerView| #[trigger] keyless(p) <==> kept(p) && needs_key()(p) by {
        lemma_configured(n.settings, p.destination_hash);
    }
    lemma_filter_twice(n.peers, kept, wanted, due);
    lemma_filter_twice(n.peers, kept, needs_key(), keyless);
    lemma_none_kept(n.peers, due);
}

/// A key is looked for exactly where it is not being looked for, the peer is
/// known and has named its cost, its key is missing or worth less, and its
/// identity is known.
pub proof fn law_when_a_key_is_looked_for(n: NodeView, k: int, identity_known: bool)
    requires
        peers_distinct(n.peers),
        0 <= k < n.peers.len(),
    ensures
        key_search_begins(n, n.peers[k].destination_hash, identity_known) <==> {
            &&& identity_known
            &&& !n.in_flight.contains(n.peers[k].destination_hash)
            &&& n.peers[k].peering_cost is Some
            &&& !(n.peers[k].peering_key matches Some(key) && key.1 >= n.peers[k].peering_cost->0)
        },
        takes_offer(n, n.peers[k].destination_hash) <==> n.peers[k].state == PropPeer::IDLE && n.peers[k].peering_key
            is Some,
{
    crate::lxmf_propagation::node::law_other_peers_are_left_alone(n.peers, k, n.peers[k]);
    assert(has_peer(n.peers, n.peers[k].destination_hash));
}

/// Of the messages that a peer lacks, those that are stored can be offered, in
/// their order.
pub proof fn law_stored_messages_can_be_offered(
    entries: Seq<(Seq<u8>, PropagationEntry)>,
    a: Seq<Seq<u8>>,
    b: Seq<Seq<u8>>,
    k: int,
    other: Seq<u8>,
)
    requires
        crate::id_map::distinct(entries),
        0 <= k < entries.len(),
        forall|i: int| 0 <= i < entries.len() ==> (#[trigger] entries[i]).0 != other,
    ensures
        known_of(entries, a + b) == known_of(entries, a) + known_of(entries, b),
        known_of(entries, seq![entries[k].0]) == seq![entries[k]],
        known_of(entries, seq![other]).len() == 0,
        known_of(entries, Seq::empty()).len() == 0,
    decreases b.len(),
{
    let one = seq![entries[k].0];
    assert(one.drop_last() =~= Seq::empty());
    assert(seq![other].drop_last() =~= Seq::empty());
    assert(known_of(entries, one.drop_last()) =~= Seq::empty());
    assert(known_of(entries, seq![other].drop_last()) =~= Seq::empty());
    crate::id_map::law_value_is_found(entries, k);
    assert(known_of(entries, one) =~= seq![entries[k]]);
    if b.len() == 0 {
        assert(a + b =~= a);
        assert(known_of(entries, a) + known_of(entries, b) =~= known_of(entries, a));
    } else {
        law_stored_messages_can_be_offered(entries, a, b.drop_last(), k, other);
        assert((a + b).drop_last() =~= a + b.drop_last());
        assert((a + b).last() == b.last());
        assert(known_of(entries, a + b) =~= known_of(entries, a) + known_of(entries, b));
    }
}

/// A message weighs its size times its age, and no age counts for less than four
/// days.
pub proof fn law_weight_of_a_message(e: PropagationEntry, now: u64)
    ensures
        now - e.received <= 4 * 24 * 60 * 60 * 1_000_000_000 ==> weight_of(e, now) == 345_600_000_000_000 * e.size,
        now - e.received > 4 * 24 * 60 * 60 * 1_000_000_000 ==> weight_of(e, now) == (now - e.received) * e.size,
{
    let age = elapsed_of(now, e.received);
    assert(age * e.size >= 0) by (nonlinear_arith)
        requires
            age >= 0,
            e.size >= 0,
    ;
}

/// An offer starts out with 24 bytes, and each message takes up 16 more than its
/// size. A further message is offered unless 500 are, it alone takes up more
/// than the peer takes of one, or the offer with it would reach the peer's limit
/// for a sync. One that the peer does not take is put down as too large, as long
/// as the offer is not full, and nothing else is.
pub proof fn law_further_message_is_offered(
    sorted: Seq<(Seq<u8>, PropagationEntry)>,
    e: (Seq<u8>, PropagationEntry),
    transfer_limit: Option<u64>,
    sync_limit: Option<u64>,
)
    ensures
        ({
            let start = offer_plan(Seq::empty(), transfer_limit, sync_limit);
            &&& start.ids.len() == 0
            &&& start.too_big.len() == 0
            &&& start.size == 24
        }),
        ({
            let before = offer_plan(sorted, transfer_limit, sync_limit);
            let after = offer_plan(sorted.push(e), transfer_limit, sync_limit);
            let full = before.ids.len() >= 500;
            let refused = transfer_limit matches Some(most) && e.1.size + 16 > most;
            let beyond = sync_limit matches Some(most) && before.size + e.1.size + 16 >= most;
            &&& full ==> after == before
            &&& !full && refused ==> after.too_big == before.too_big + seq![e.0] && after.ids == before.ids
                && after.size == before.size
            &&& !full && !refused && beyond ==> after == before
            &&& !full && !refused && !beyond ==> after.ids == before.ids + seq![e.0] && after.size == before.size
                + e.1.size + 16 && after.too_big == before.too_big
        }),
{
    assert(sorted.push(e).drop_last() =~= sorted);
    let before = offer_plan(sorted, transfer_limit, sync_limit);
    assert(before.too_big.push(e.0) =~= before.too_big + seq![e.0]);
    assert(before.ids.push(e.0) =~= before.ids + seq![e.0]);
}

/// What is offered to a peer, and what is put down as too large for it, is
/// stored and lacked by it, and came since the start while the rest is held
/// back.
pub proof fn law_offered_messages_are_lacked(n: NodeView, k: int, now: u64, id: Seq<u8>)
    requires
        peers_distinct(n.peers),
        0 <= k < n.peers.len(),
        n.peers[k].unhandled.len() <= usize::MAX,
        n.fresh.len() <= usize::MAX,
        ({
            let offer = offer_now(n, n.peers[k].destination_hash, now);
            offer.ids.contains(id) || offer.too_big.contains(id)
        }),
    ensures
        exists|i: int| 0 <= i < n.entries.len() && (#[trigger] n.entries[i]).0 == id,
        n.peers[k].unhandled.contains(id),
        now - n.started_at < 60 * 60 * 1_000_000_000 ==> n.fresh.contains(id),
{
    crate::lxmf_propagation::node::law_other_peers_are_left_alone(n.peers, k, n.peers[k]);
    let p = n.peers[k];
    let held = is_backlog_held(n, now);
    let pool = sync_pool_of(held, n.fresh, p);
    let known = known_of(n.entries, pool);
    let order = weight_order(known, now);
    let sorted = in_order(known, order);
    n.fresh.lemma_filter_len(listed_in(p.unhandled));
    lemma_known_len(n.entries, pool);
    crate::order::law_stable_order_exists(weight_keys(known, now));
    lemma_offer_is_of(sorted, p.propagation_transfer_limit, p.propagation_sync_limit, id);
    let j = choose|j: int| 0 <= j < sorted.len() && (#[trigger] sorted[j]).0 == id;
    let q = order[j] as int;
    assert(0 <= q < known.len());
    assert(known[q].0 == id);
    lemma_known_is_of(n.entries, pool, q);
    law_only_fresh_messages_during_hold(n.fresh, p, id);
}

proof fn lemma_known_len(entries: Seq<(Seq<u8>, PropagationEntry)>, ids: Seq<Seq<u8>>)
    ensures
        known_of(entries, ids).len() <= ids.len(),
    decreases ids.len(),
{
    if ids.len() > 0 {
        lemma_known_len(entries, ids.drop_last());
    }
}

proof fn lemma_known_is_of(entries: Seq<(Seq<u8>, PropagationEntry)>, ids: Seq<Seq<u8>>, q: int)
    requires
        0 <= q < known_of(entries, ids).len(),
    ensures
        ids.contains(known_of(entries, ids)[q].0),
        has_key(entries, known_of(entries, ids)[q].0),
    decreases ids.len(),
{
    let rest = ids.drop_last();
    if q < known_of(entries, rest).len() {
        lemma_known_is_of(entries, rest, q);
        let k = rest.index_of(known_of(entries, rest)[q].0);
        assert(ids[k] == rest[k]);
    } else {
        assert(ids[ids.len() - 1] == ids.last());
    }
}

proof fn lemma_offer_is_of(
    sorted: Seq<(Seq<u8>, PropagationEntry)>,
    transfer_limit: Option<u64>,
    sync_limit: Option<u64>,
    id: Seq<u8>,
)
    requires
        ({
            let plan = offer_plan(sorted, transfer_limit, sync_limit);
            plan.ids.contains(id) || plan.too_big.contains(id)
        }),
    ensures
        exists|j: int| 0 <= j < sorted.len() && (#[trigger] sorted[j]).0 == id,
    decreases sorted.len(),
{
    if sorted.len() > 0 {
        let rest = sorted.drop_last();
        let before = offer_plan(rest, transfer_limit, sync_limit);
        let after = offer_plan(sorted, transfer_limit, sync_limit);
        if before.ids.contains(id) || before.too_big.contains(id) {
            lemma_offer_is_of(rest, transfer_limit, sync_limit, id);
            let j = choose|j: int| 0 <= j < rest.len() && (#[trigger] rest[j]).0 == id;
            assert(sorted[j].0 == id);
        } else {
            assert(sorted[sorted.len() - 1] == sorted.last());
            if after.ids.contains(id) {
                let i = after.ids.index_of(id);
                if i < before.ids.len() {
                    assert(before.ids[i] == id);
                }
            } else {
                let i = after.too_big.index_of(id);
                if i < before.too_big.len() {
                    assert(before.too_big[i] == id);
                }
            }
        }
    }
}

/// The node looks for work every six seconds, does nothing where the budget of
/// the minute is used up, and gives up no peer that is configured.
pub proof fn law_tick_of_the_node(node: &mut LxmfPropagationNode, now: u64, r: SyncStep, p: PeerView)
    requires
        call_ensures(LxmfPropagationNode::tick_sync, (node, now), r),
    ensures
        now - old(node)@.last_sync_tick < 6 * 1_000_000_000 ==> r@ is Wait && final(node)@ == old(node)@,
        now - old(node)@.last_sync_tick >= 6 * 1_000_000_000 ==> !(r@ is Wait) && final(node)@.last_sync_tick == now,
        now - old(node)@.window_start < 60 * 1_000_000_000 && old(node)@.window_count >= old(node)@.msgs_per_min ==> r@
            is Wait || r@ is Held,
        final(node)@.peers.contains(p) ==> old(node)@.peers.contains(p),
        old(node)@.peers.contains(p) && now - p.last_heard <= 14 * 24 * 60 * 60 * 1_000_000_000 ==> final(node)@.peers.contains(p),
        old(node)@.peers.contains(p) && (exists|i: int|
            0 <= i < old(node)@.settings.static_peers@.len() && (#[trigger] old(node)@.settings.static_peers@[i])@
                == p.destination_hash) ==> final(node)@.peers.contains(p),
        final(node)@.entries == old(node)@.entries,
{
    let n = old(node)@;
    law_when_the_node_looks_for_work(n, now);
    let noted = backlog_noted(NodeView { last_sync_tick: now, ..n }, now);
    law_silent_peers_are_given_up(budget_checked(noted, now), now, p);
}

/// A key is kept exactly where it was found, is worth what it was meant to be,
/// and the peer is still known. Either way it is not looked for any more.
pub proof fn law_which_keys_are_kept(
    node: &mut LxmfPropagationNode,
    hash: &[u8],
    cost: u32,
    key: Option<Vec<u8>>,
    value: u32,
    r: bool,
    k: int,
)
    requires
        call_ensures(LxmfPropagationNode::finish_key, (node, hash, cost, key, value), r),
        peers_distinct(old(node)@.peers),
        0 <= k < old(node)@.peers.len(),
        hash@ == old(node)@.peers[k].destination_hash,
    ensures
        r <==> key is Some && value >= cost,
        r ==> final(node)@.peers[k].peering_key == Some((key->0@, value)),
        !r ==> final(node)@.peers[k] == old(node)@.peers[k],
        forall|i: int|
            0 <= i < old(node)@.peers.len() && i != k ==> #[trigger] final(node)@.peers[i] == old(node)@.peers[i],
        !final(node)@.in_flight.contains(hash@),
        forall|x: Seq<u8>| x != hash@ ==> (#[trigger] final(node)@.in_flight.contains(x) <==> old(node)@.in_flight.contains(x)),
{
    let peers = old(node)@.peers;
    assert(has_peer(peers, hash@));
    if r {
        crate::lxmf_propagation::node::law_other_peers_are_left_alone(
            peers,
            k,
            PeerView { peering_key: Some((key->0@, value)), ..peers[k] },
        );
        crate::lxmf_propagation::node::lemma_peer_at(peers, k);
    }
    crate::lxmf_propagation::id_queue::law_one_id_less(old(node)@.in_flight, hash@);
}

/// What is offered to a peer is stored and lacked by it. What is too large for
/// the peer counts as with it from then on, and no other message and no other
/// peer is touched.
pub proof fn law_what_an_offer_changes(
    node: &mut LxmfPropagationNode,
    hash: &[u8],
    now: u64,
    r: Option<Vec<Vec<u8>>>,
    k: int,
    id: Seq<u8>,
)
    requires
        call_ensures(LxmfPropagationNode::build_offer, (node, hash, now), r),
        peers_distinct(old(node)@.peers),
        0 <= k < old(node)@.peers.len(),
        hash@ == old(node)@.peers[k].destination_hash,
        old(node)@.peers[k].unhandled.len() <= usize::MAX,
        old(node)@.fresh.len() <= usize::MAX,
    ensures
        r is Some ==> old(node)@.peers[k].state == PropPeer::IDLE && old(node)@.peers[k].peering_key is Some
            && r->0@.len() > 0,
        r is Some && views(r->0@).contains(id) ==> old(node)@.peers[k].unhandled.contains(id) && exists|i: int|
            0 <= i < old(node)@.entries.len() && (#[trigger] old(node)@.entries[i]).0 == id,
        forall|i: int|
            0 <= i < old(node)@.peers.len() && i != k ==> #[trigger] final(node)@.peers[i] == old(node)@.peers[i],
        final(node)@.peers[k].unhandled.contains(id) ==> old(node)@.peers[k].unhandled.contains(id),
        old(node)@.peers[k].unhandled.contains(id) && !final(node)@.peers[k].unhandled.contains(id) ==> final(node)@.peers[k].handled.contains(id),
        final(node)@.entries == old(node)@.entries,
{
    let n = old(node)@;
    let peers = n.peers;
    assert(has_peer(peers, hash@));
    crate::lxmf_propagation::node::lemma_peer_at(peers, k);
    let plan = offer_now(n, hash@, now);
    if plan.ids.contains(id) || plan.too_big.contains(id) {
        law_offered_messages_are_lacked(n, k, now, id);
    }
    let marked = with_all_handled(peers[k], plan.too_big);
    crate::lxmf_propagation::node::law_other_peers_are_left_alone(peers, k, marked);
    crate::lxmf_propagation::peer::law_marked_messages_are_with_the_peer(peers[k], plan.too_big, id);
    if r is Some {
        assert(views(r->0@).len() == r->0@.len());
    }
}

/// The search for a key begins for a known peer that named its cost and lacks the
/// key, once at a time, and only where its identity is known. The job carries the
/// cost, and both identities.
pub proof fn law_job_of_a_key(
    node: &mut LxmfPropagationNode,
    hash: &[u8],
    identity: Option<&[u8]>,
    r: Option<KeyJob>,
    k: int,
)
    requires
        call_ensures(LxmfPropagationNode::begin_key, (node, hash, identity), r),
        peers_distinct(old(node)@.peers),
        0 <= k < old(node)@.peers.len(),
        hash@ == old(node)@.peers[k].destination_hash,
    ensures
        ({
            let p = old(node)@.peers[k];
            let enough = p.peering_cost matches Some(cost) && (p.peering_key matches Some(key) && key.1 >= cost);
            r is Some <==> identity is Some && p.peering_cost is Some && !enough && !old(node)@.in_flight.contains(
                hash@,
            )
        }),
        r is None ==> final(node)@ == old(node)@,
        r is Some ==> final(node)@.in_flight.contains(hash@) && Some(r->0.cost) == old(node)@.peers[k].peering_cost
            && r->0.material@ == identity->0@ + old(node).settings.identity_hash@ && r->0.peer_hash@ == hash@,
        final(node)@.peers == old(node)@.peers,
{
    law_when_a_key_is_looked_for(old(node)@, k, identity is Some);
    crate::lxmf_propagation::node::lemma_peer_at(old(node)@.peers, k);
    if r is Some {
        assert(final(node)@.in_flight[old(node)@.in_flight.len() as int] == hash@);
    }
}

} // verus!
