//! The exchange with a peer over a link: the offer, the answer to it, and the
//! transfer of what the peer wants.
use vstd::prelude::*;
use crate::id_map::{has_key, value_of};
use crate::lxmf_propagation::id_queue::IdQueue;
use crate::lxmf_propagation::node::{
    has_peer, lemma_with_peer_distinct, other_peers, peer_of, with_peer, LxmfPropagationNode, NodeView,
    PropagationEntry,
};
use crate::lxmf_propagation::peer::{fresh_peer, key_view, with_all_handled, PeerView, PropPeer};
use crate::lxmf_propagation::sync::lemma_all_handled_hash;
use crate::lxmf_propagation::wire::{
    encode_offer, encode_transfer, offer_value, transfer_value, OfferResponse, ResponseView,
};
use crate::msgpack::msgpack_write;
use crate::octets::{
    copied, copied_list, copied_opt, distinct_of, holds, is_some_of, lemma_filter_ends, lemma_filter_step, opt_view,
    views,
};
use crate::text::text_views;

verus! {

/// What is to be done with a link that is there for an offer.
pub enum OfferStep {
    /// The peer is not known any more.
    NoPeer,
    /// This node is to identify itself on the link first.
    Identify,
    /// The peer has no key.
    NoKey,
    /// The offer is to be sent.
    Send(Vec<u8>),
}

/// The peer with a link for an offer.
pub open spec fn with_link(p: PeerView, link_id: Seq<u8>, ids: Seq<Seq<u8>>, now: u64) -> PeerView {
    PeerView {
        link: Some(link_id),
        last_offer: ids,
        state: PropPeer::LINK_READY,
        alive: true,
        last_heard: now,
        sync_backoff: 0,
        ..p
    }
}

/// The peer with nothing under way.
pub open spec fn at_rest(p: PeerView) -> PeerView {
    PeerView { state: PropPeer::IDLE, link: None, ..p }
}

/// The node with `p` in the place of the peer with this hash, where there is
/// one.
pub open spec fn with_peer_as(n: NodeView, hash: Seq<u8>, p: PeerView) -> NodeView {
    if has_peer(n.peers, hash) {
        NodeView { peers: with_peer(n.peers, hash, p), ..n }
    } else {
        n
    }
}

impl LxmfPropagationNode {
    /// A link to a peer is there for an offer. An offer is sent only on a
    /// link on which this node has identified itself.
    pub fn offer_link_ready(&mut self, hash: &[u8], link_id: &[u8], offer_ids: &Vec<Vec<u8>>, now: u64) -> (r: OfferStep)
        requires
            old(self).wf(),
        ensures
            final(self).wf(),
            final(self)@ == with_peer_as(
                old(self)@,
                hash@,
                with_link(peer_of(old(self)@.peers, hash@), link_id@, views(offer_ids@), now),
            ),
            r is NoPeer <==> !has_peer(old(self)@.peers, hash@),
            ({
                let p = peer_of(old(self)@.peers, hash@);
                &&& r is Identify <==> has_peer(old(self)@.peers, hash@) && p.identified_link_id != Some(link_id@)
                &&& r is NoKey <==> has_peer(old(self)@.peers, hash@) && p.identified_link_id == Some(link_id@)
                    && p.peering_key is None
                &&& r matches OfferStep::Send(bytes) ==> (p.peering_key matches Some((key, _)) && bytes@
                    == msgpack_write(offer_value(key, views(offer_ids@))))
            }),
    {
        let ghost before = self@.peers;
        let i: usize = match self.position(hash) {
            Some(i) => i,
            None => return OfferStep::NoPeer,
        };
        let link: Vec<u8> = copied(link_id);
        let offered: Vec<Vec<u8>> = copied_list(offer_ids);
        self.peers[i].link = Some(link);
        self.peers[i].last_offer = offered;
        self.peers[i].state = PropPeer::LINK_READY;
        self.peers[i].alive = true;
        self.peers[i].last_heard = now;
        self.peers[i].sync_backoff = 0;
        proof {
            let p = with_link(before[i as int], link_id@, views(offer_ids@), now);
            assert(self@.peers =~= before.update(i as int, p));
            lemma_with_peer_distinct(before, hash@, p);
        }
        if !is_some_of(&self.peers[i].identified_link_id, link_id) {
            return OfferStep::Identify;
        }
        match &self.peers[i].peering_key {
            Some(key) => OfferStep::Send(encode_offer(copied(key.0.as_slice()), copied_list(offer_ids))),
            None => OfferStep::NoKey,
        }
    }

    /// This node has identified itself on a link, or could not. The offer
    /// waits for the next round either way.
    pub fn identify_done(&mut self, hash: &[u8], link_id: &[u8], ok: bool)
        requires
            old(self).wf(),
        ensures
            final(self).wf(),
            final(self)@ == with_peer_as(
                old(self)@,
                hash@,
                if ok {
                    PeerView {
                        identified_link_id: Some(link_id@),
                        state: PropPeer::IDLE,
                        ..peer_of(old(self)@.peers, hash@)
                    }
                } else {
                    PeerView { identified_link_id: None, ..at_rest(peer_of(old(self)@.peers, hash@)) }
                },
            ),
    {
        let ghost before = self@.peers;
        if let Some(i) = self.position(hash) {
            self.peers[i].state = PropPeer::IDLE;
            if ok {
                let link: Vec<u8> = copied(link_id);
                self.peers[i].identified_link_id = Some(link);
            } else {
                self.peers[i].link = None;
                self.peers[i].identified_link_id = None;
            }
            proof {
                let p = self.peers@[i as int]@;
                assert(self@.peers =~= before.update(i as int, p));
                lemma_with_peer_distinct(before, hash@, p);
            }
        }
    }

    /// The offer has been sent, or could not be.
    pub fn offer_sent(&mut self, hash: &[u8], ok: bool)
        requires
            old(self).wf(),
        ensures
            final(self).wf(),
            final(self)@ == with_peer_as(
                old(self)@,
                hash@,
                if ok {
                    PeerView { state: PropPeer::REQUEST_SENT, ..peer_of(old(self)@.peers, hash@) }
                } else {
                    at_rest(peer_of(old(self)@.peers, hash@))
                },
            ),
    {
        let ghost before = self@.peers;
        if let Some(i) = self.position(hash) {
            if ok {
                self.peers[i].state = PropPeer::REQUEST_SENT;
            } else {
                self.peers[i].state = PropPeer::IDLE;
                self.peers[i].link = None;
            }
            proof {
                let p = self.peers@[i as int]@;
                assert(self@.peers =~= before.update(i as int, p));
                lemma_with_peer_distinct(before, hash@, p);
            }
        }
    }

    /// The offer got no answer: the link is given up.
    pub fn offer_failed(&mut self, hash: &[u8])
        requires
            old(self).wf(),
        ensures
            final(self).wf(),
            final(self)@ == with_peer_as(
                old(self)@,
                hash@,
                PeerView { identified_link_id: None, ..at_rest(peer_of(old(self)@.peers, hash@)) },
            ),
    {
        let ghost before = self@.peers;
        if let Some(i) = self.position(hash) {
            self.peers[i].state = PropPeer::IDLE;
            self.peers[i].link = None;
            self.peers[i].identified_link_id = None;
            proof {
                let p = self.peers@[i as int]@;
                assert(self@.peers =~= before.update(i as int, p));
                lemma_with_peer_distinct(before, hash@, p);
            }
        }
    }
}

/// The test that a message is not among the wanted ones.
pub open spec fn not_wanted(wanted: Seq<Seq<u8>>) -> spec_fn(Seq<u8>) -> bool {
    |id: Seq<u8>| !wanted.contains(id)
}

/// What is left to do once a peer has answered an offer.
pub enum ResponseStep {
    /// Nothing.
    Done,
    /// These messages are to be sent, and the exchange is to be ended then.
    Send(Vec<Vec<u8>>),
}

/// The messages that an answer asks for, if it asks for any.
pub open spec fn asked_for(p: PeerView, response: ResponseView) -> Option<Seq<Seq<u8>>> {
    match response {
        ResponseView::WantsAll => Some(p.last_offer),
        ResponseView::Wants(ids) => Some(ids),
        _ => None,
    }
}

/// The peer after its answer to an offer: what it has or does not want is
/// marked as with it, and an error is acted on.
pub open spec fn answered(p: PeerView, response: ResponseView) -> PeerView {
    match response {
        ResponseView::NoIdentity => PeerView { identified_link_id: None, state: PropPeer::IDLE, ..p },
        ResponseView::AccessDenied => PeerView { state: PropPeer::RESPONSE_RECEIVED, ..p },
        ResponseView::InvalidKey => PeerView {
            peering_key: None,
            identified_link_id: None,
            state: PropPeer::IDLE,
            ..p
        },
        ResponseView::HasAll => at_rest(with_all_handled(p, p.last_offer)),
        ResponseView::WantsAll => PeerView { state: PropPeer::RESPONSE_RECEIVED, ..p },
        ResponseView::Wants(ids) => PeerView {
            state: PropPeer::RESPONSE_RECEIVED,
            ..with_all_handled(p, p.last_offer.filter(not_wanted(ids)))
        },
        ResponseView::Unexpected => at_rest(p),
    }
}

/// The node after a peer's answer to an offer. A peer that does not let this
/// node in is given up.
pub open spec fn node_answered(n: NodeView, hash: Seq<u8>, response: ResponseView) -> NodeView {
    if response is AccessDenied {
        NodeView { peers: n.peers.filter(other_peers(hash)), ..n }
    } else {
        with_peer_as(n, hash, answered(peer_of(n.peers, hash), response))
    }
}

/// A message that was offered is either asked for or marked as with the peer,
/// where the peer says which messages it wants.
pub proof fn law_every_offered_message_is_settled(p: PeerView, ids: Seq<Seq<u8>>, id: Seq<u8>)
    requires
        p.last_offer.contains(id),
    ensures
        ids.contains(id) || answered(p, ResponseView::Wants(ids)).handled.contains(id),
        answered(p, ResponseView::HasAll).handled.contains(id),
{
    let unwanted = p.last_offer.filter(not_wanted(ids));
    crate::octets::lemma_filter_holds(p.last_offer, not_wanted(ids));
    if !ids.contains(id) {
        assert(not_wanted(ids)(id));
        assert(unwanted.contains(id));
        lemma_marked(p, unwanted, id);
    }
    lemma_marked(p, p.last_offer, id);
}

/// Messages that are marked as with a peer stay so.
pub proof fn lemma_marked(p: PeerView, ids: Seq<Seq<u8>>, id: Seq<u8>)
    requires
        ids.contains(id) || p.handled.contains(id),
    ensures
        with_all_handled(p, ids).handled.contains(id),
    decreases ids.len(),
{
    if ids.len() > 0 {
        let rest = ids.drop_last();
        let before = with_all_handled(p, rest).handled;
        let after = with_all_handled(p, ids).handled;
        if id == ids.last() {
            if !before.contains(id) {
                assert(after[before.len() as int] == id);
            }
        } else {
            if ids.contains(id) {
                let k = ids.index_of(id);
                assert(rest[k] == id);
            }
            lemma_marked(p, rest, id);
            let k = before.index_of(id);
            assert(after[k] == id);
        }
    }
}

impl LxmfPropagationNode {
    /// Acts on a peer's answer to an offer, as [`node_answered`] says.
    pub fn handle_offer_response(&mut self, hash: &[u8], response: OfferResponse) -> (r: ResponseStep)
        requires
            old(self).wf(),
        ensures
            final(self).wf(),
            final(self)@ == node_answered(old(self)@, hash@, response@),
            r is Send <==> has_peer(old(self)@.peers, hash@) && asked_for(
                peer_of(old(self)@.peers, hash@),
                response@,
            ) is Some,
            r matches ResponseStep::Send(ids) ==> Some(views(ids@)) == asked_for(
                peer_of(old(self)@.peers, hash@),
                response@,
            ),
    {
        let ghost before = self@.peers;
        let i: usize = match self.position(hash) {
            Some(i) => i,
            None => {
                proof {
                    crate::octets::lemma_filter_all(before, other_peers(hash@));
                }
                return ResponseStep::Done;
            },
        };
        let ghost p = before[i as int];
        let mut step: ResponseStep = ResponseStep::Done;
        match response {
            OfferResponse::AccessDenied => {
                self.unpeer(hash);
                return ResponseStep::Done;
            },
            OfferResponse::NoIdentity => {
                self.peers[i].identified_link_id = None;
                self.peers[i].state = PropPeer::IDLE;
            },
            OfferResponse::InvalidKey => {
                self.peers[i].peering_key = None;
                self.peers[i].identified_link_id = None;
                self.peers[i].state = PropPeer::IDLE;
            },
            OfferResponse::HasAll => {
                let offered: Vec<Vec<u8>> = copied_list(&self.peers[i].last_offer);
                self.peers[i].mark_all_handled(&offered);
                self.peers[i].state = PropPeer::IDLE;
                self.peers[i].link = None;
                proof {
                    lemma_all_handled_hash(p, views(offered@));
                }
            },
            OfferResponse::WantsAll => {
                self.peers[i].state = PropPeer::RESPONSE_RECEIVED;
                step = ResponseStep::Send(copied_list(&self.peers[i].last_offer));
            },
            OfferResponse::Wants(ids) => {
                let unwanted: Vec<Vec<u8>> = others(&self.peers[i].last_offer, &ids);
                self.peers[i].mark_all_handled(&unwanted);
                self.peers[i].state = PropPeer::RESPONSE_RECEIVED;
                proof {
                    lemma_all_handled_hash(p, views(unwanted@));
                }
                step = ResponseStep::Send(ids);
            },
            OfferResponse::Unexpected => {
                self.peers[i].state = PropPeer::IDLE;
                self.peers[i].link = None;
            },
        }
        proof {
            let q = answered(p, response@);
            assert(self@.peers =~= before.update(i as int, q));
            lemma_with_peer_distinct(before, hash@, q);
        }
        step
    }
}

/// The messages of `list` that are not among `wanted`, in order.
fn others(list: &Vec<Vec<u8>>, wanted: &Vec<Vec<u8>>) -> (r: Vec<Vec<u8>>)
    ensures
        views(r@) == views(list@).filter(not_wanted(views(wanted@))),
{
    let ghost all = views(list@);
    let ghost keep = not_wanted(views(wanted@));
    let mut out: Vec<Vec<u8>> = Vec::new();
    let mut i: usize = 0;
    proof {
        lemma_filter_ends(all, keep);
        assert(views(out@) =~= Seq::empty());
    }
    while i < list.len()
        invariant
            0 <= i <= list@.len(),
            all == views(list@),
            keep == not_wanted(views(wanted@)),
            views(out@) == all.take(i as int).filter(keep),
        decreases list@.len() - i,
    {
        proof {
            lemma_filter_step(all, keep, i as int);
        }
        if !holds(wanted.as_slice(), list[i].as_slice()) {
            let item: Vec<u8> = copied(list[i].as_slice());
            let ghost before = out@;
            out.push(item);
            assert(views(out@) =~= views(before).push(item@));
        }
        i += 1;
    }
    proof {
        lemma_filter_ends(all, keep);
    }
    out
}

/// The files of the messages of a list that are stored, in order.
pub open spec fn stored_files(entries: Seq<(Seq<u8>, PropagationEntry)>, ids: Seq<Seq<u8>>) -> Seq<Seq<char>>
    decreases ids.len(),
{
    if ids.len() == 0 {
        Seq::empty()
    } else {
        let rest = stored_files(entries, ids.drop_last());
        if has_key(entries, ids.last()) {
            rest.push(value_of(entries, ids.last()).filepath@)
        } else {
            rest
        }
    }
}

/// Whether messages can be sent to a peer: there are some, and a link.
pub open spec fn can_transfer(n: NodeView, hash: Seq<u8>, files: nat) -> bool {
    files > 0 && has_peer(n.peers, hash) && peer_of(n.peers, hash).link is Some
}

impl LxmfPropagationNode {
    /// The files of the messages of a list that are stored, in order.
    pub fn transfer_files(&self, ids: &Vec<Vec<u8>>) -> (r: Vec<String>)
        requires
            self.wf(),
        ensures
            text_views(r@) == stored_files(self@.entries, views(ids@)),
    {
        let ghost all = views(ids@);
        let mut files: Vec<String> = Vec::new();
        let mut i: usize = 0;
        assert(text_views(files@) =~= Seq::empty());
        while i < ids.len()
            invariant
                self.wf(),
                0 <= i <= ids@.len(),
                all == views(ids@),
                text_views(files@) == stored_files(self@.entries, all.take(i as int)),
            decreases ids@.len() - i,
        {
            proof {
                assert(all.take(i + 1).drop_last() =~= all.take(i as int));
                assert(all.take(i + 1).last() == ids@[i as int]@);
            }
            if let Some(entry) = self.entries.get(ids[i].as_slice()) {
                let file: String = entry.filepath.as_str().to_owned();
                let ghost before = files@;
                files.push(file);
                assert(text_views(files@) =~= text_views(before).push(file@));
            }
            i += 1;
        }
        assert(all.take(ids@.len() as int) =~= all);
        files
    }

    /// What is to be sent to a peer that asked for the messages of a list, of
    /// which these could be read. The messages are marked as with the peer
    /// before they are sent.
    pub fn begin_transfer(&mut self, hash: &[u8], ids: &Vec<Vec<u8>>, messages: Vec<Vec<u8>>) -> (r: Option<Vec<u8>>)
        requires
            old(self).wf(),
        ensures
            final(self).wf(),
            r is Some <==> can_transfer(old(self)@, hash@, messages@.len()),
            r matches Some(bytes) ==> bytes@ == msgpack_write(transfer_value(views(messages@))),
            final(self)@ == (if r is Some {
                with_peer_as(
                    old(self)@,
                    hash@,
                    with_all_handled(peer_of(old(self)@.peers, hash@), views(ids@)),
                )
            } else {
                old(self)@
            }),
    {
        if messages.len() == 0 {
            return None;
        }
        let ghost before = self@.peers;
        let i: usize = match self.position(hash) {
            Some(i) => i,
            None => return None,
        };
        if self.peers[i].link.is_none() {
            return None;
        }
        let ghost p = before[i as int];
        self.peers[i].mark_all_handled(ids);
        proof {
            let q = with_all_handled(p, views(ids@));
            lemma_all_handled_hash(p, views(ids@));
            assert(self@.peers =~= before.update(i as int, q));
            lemma_with_peer_distinct(before, hash@, q);
        }
        Some(encode_transfer(messages))
    }

    /// Counts messages that were sent against the minute's budget.
    pub fn transfer_sent(&mut self, count: u64)
        requires
            old(self).outbound_sync_window_count + count <= u64::MAX,
        ensures
            final(self)@ == (NodeView {
                window_count: (old(self).outbound_sync_window_count + count) as u64,
                ..old(self)@
            }),
            old(self).wf() ==> final(self).wf(),
    {
        self.outbound_sync_window_count = self.outbound_sync_window_count + count;
    }

    /// The exchange with a peer is over.
    pub fn end_exchange(&mut self, hash: &[u8])
        requires
            old(self).wf(),
        ensures
            final(self).wf(),
            final(self)@ == with_peer_as(old(self)@, hash@, at_rest(peer_of(old(self)@.peers, hash@))),
    {
        self.offer_sent(hash, false);
    }

    /// What the node has done and holds: messages received, messages served,
    /// messages stored, peers.
    pub fn get_stats(&self) -> (r: (u64, u64, usize, usize))
        requires
            self.wf(),
        ensures
            r == (self.messages_received, self.messages_served, self@.entries.len() as usize, self@.peers.len() as usize),
            r.2 == self@.entries.len(),
            r.3 == self@.peers.len(),
    {
        (self.messages_received, self.messages_served, self.entries.len(), self.peers.len())
    }
}

/// The part of a peer that outlives the node.
pub struct PeerState {
    pub destination_hash: Vec<u8>,
    pub alive: bool,
    pub last_heard: u64,
    pub peering_timebase: i64,
    pub propagation_stamp_cost: Option<u32>,
    pub propagation_stamp_flexibility: Option<u32>,
    pub peering_cost: Option<u32>,
    pub propagation_transfer_limit: Option<u64>,
    pub propagation_sync_limit: Option<u64>,
    pub peering_key: Option<(Vec<u8>, u32)>,
    pub metadata: Option<Vec<u8>>,
    pub handled_ids: Vec<Vec<u8>>,
    pub unhandled_ids: Vec<Vec<u8>>,
}

/// The test that a message is stored.
pub open spec fn is_stored(entries: Seq<(Seq<u8>, PropagationEntry)>) -> spec_fn(Seq<u8>) -> bool {
    |id: Seq<u8>| has_key(entries, id)
}

/// The peer that a saved state stands for, with only those messages in its
/// queues that are still stored.
pub open spec fn restored(s: PeerState, entries: Seq<(Seq<u8>, PropagationEntry)>) -> PeerView {
    PeerView {
        alive: s.alive,
        last_heard: s.last_heard,
        peering_timebase: s.peering_timebase,
        propagation_stamp_cost: s.propagation_stamp_cost,
        propagation_stamp_flexibility: s.propagation_stamp_flexibility,
        peering_cost: s.peering_cost,
        propagation_transfer_limit: s.propagation_transfer_limit,
        propagation_sync_limit: s.propagation_sync_limit,
        peering_key: key_view(s.peering_key),
        metadata: opt_view(s.metadata),
        handled: distinct_of(views(s.handled_ids@).filter(is_stored(entries))),
        unhandled: distinct_of(views(s.unhandled_ids@).filter(is_stored(entries))),
        ..fresh_peer(s.destination_hash@)
    }
}

/// Whether a saved state is that of a peer.
pub open spec fn saved(s: PeerState, p: PeerView) -> bool {
    &&& s.destination_hash@ == p.destination_hash
    &&& s.alive == p.alive
    &&& s.last_heard == p.last_heard
    &&& s.peering_timebase == p.peering_timebase
    &&& s.propagation_stamp_cost == p.propagation_stamp_cost
    &&& s.propagation_stamp_flexibility == p.propagation_stamp_flexibility
    &&& s.peering_cost == p.peering_cost
    &&& s.propagation_transfer_limit == p.propagation_transfer_limit
    &&& s.propagation_sync_limit == p.propagation_sync_limit
    &&& key_view(s.peering_key) == p.peering_key
    &&& opt_view(s.metadata) == p.metadata
    &&& views(s.handled_ids@) == p.handled
    &&& views(s.unhandled_ids@) == p.unhandled
}

/// A peer whose queues hold only stored messages comes back as it was saved,
/// at rest and with nothing remembered of its latest exchange.
pub proof fn law_saved_peer_is_restored(s: PeerState, p: PeerView, entries: Seq<(Seq<u8>, PropagationEntry)>)
    requires
        saved(s, p),
        p.handled.no_duplicates(),
        p.unhandled.no_duplicates(),
        forall|i: int| 0 <= i < p.handled.len() ==> has_key(entries, #[trigger] p.handled[i]),
        forall|i: int| 0 <= i < p.unhandled.len() ==> has_key(entries, #[trigger] p.unhandled[i]),
    ensures
        restored(s, entries) == (PeerView {
            sync_backoff: 0,
            next_sync_attempt: 0,
            last_sync_attempt: 0,
            last_offer: Seq::empty(),
            link: None,
            identified_link_id: None,
            state: PropPeer::IDLE,
            ..p
        }),
{
    crate::octets::lemma_filter_all(p.handled, is_stored(entries));
    crate::octets::lemma_filter_all(p.unhandled, is_stored(entries));
    lemma_distinct_list(p.handled);
    lemma_distinct_list(p.unhandled);
}

/// A list with nothing in it twice is its own list of distinct items.
proof fn lemma_distinct_list(list: Seq<Seq<u8>>)
    requires
        list.no_duplicates(),
    ensures
        distinct_of(list) == list,
    decreases list.len(),
{
    if list.len() > 0 {
        let rest = list.drop_last();
        assert forall|i: int, j: int| 0 <= i < rest.len() && 0 <= j < rest.len() && i != j implies rest[i] != rest[j] by {
            assert(list[i] != list[j]);
        }
        lemma_distinct_list(rest);
        assert(!rest.contains(list.last())) by {
            if rest.contains(list.last()) {
                let i = rest.index_of(list.last());
                assert(list[i] != list[list.len() - 1]);
            }
        }
        assert(rest.push(list.last()) =~= list);
    } else {
        assert(distinct_of(list) =~= list);
    }
}

impl PropPeer {
    /// The part of the peer that outlives the node.
    pub fn to_state(&self) -> (r: PeerState)
        ensures
            saved(r, self@),
    {
        PeerState {
            destination_hash: copied(self.destination_hash.as_slice()),
            alive: self.alive,
            last_heard: self.last_heard,
            peering_timebase: self.peering_timebase,
            propagation_stamp_cost: self.propagation_stamp_cost,
            propagation_stamp_flexibility: self.propagation_stamp_flexibility,
            peering_cost: self.peering_cost,
            propagation_transfer_limit: self.propagation_transfer_limit,
            propagation_sync_limit: self.propagation_sync_limit,
            peering_key: match &self.peering_key {
                Some(k) => Some((copied(k.0.as_slice()), k.1)),
                None => None,
            },
            metadata: copied_opt(&self.metadata),
            handled_ids: self.handled_ids.to_vec(),
            unhandled_ids: self.unhandled_ids.to_vec(),
        }
    }
}

impl LxmfPropagationNode {
    /// The queue of the messages of a list that are stored.
    fn stored_queue(&self, ids: &Vec<Vec<u8>>) -> (r: IdQueue)
        requires
            self.wf(),
        ensures
            r.wf(),
            r@ == distinct_of(views(ids@).filter(is_stored(self@.entries))),
    {
        let ghost all = views(ids@);
        let ghost keep = is_stored(self@.entries);
        let mut out: IdQueue = IdQueue::new();
        let mut i: usize = 0;
        proof {
            lemma_filter_ends(all, keep);
        }
        while i < ids.len()
            invariant
                self.wf(),
                out.wf(),
                0 <= i <= ids@.len(),
                all == views(ids@),
                keep == is_stored(self@.entries),
                out@ == distinct_of(all.take(i as int).filter(keep)),
            decreases ids@.len() - i,
        {
            proof {
                lemma_filter_step(all, keep, i as int);
            }
            let ghost kept = all.take(i as int).filter(keep);
            if self.entries.contains(ids[i].as_slice()) {
                out.push_unique(copied(ids[i].as_slice()));
                assert(kept.push(all[i as int]).drop_last() =~= kept);
            }
            i += 1;
        }
        proof {
            lemma_filter_ends(all, keep);
        }
        out
    }

    /// Takes up a peer that was saved, in the place of one with the same hash.
    pub fn restore_peer(&mut self, state: PeerState)
        requires
            old(self).wf(),
        ensures
            final(self).wf(),
            final(self)@ == (NodeView {
                peers: if has_peer(old(self)@.peers, state.destination_hash@) {
                    with_peer(
                        old(self)@.peers,
                        state.destination_hash@,
                        restored(state, old(self)@.entries),
                    )
                } else {
                    old(self)@.peers.push(restored(state, old(self)@.entries))
                },
                ..old(self)@
            }),
    {
        let ghost before = self@.peers;
        let handled: IdQueue = self.stored_queue(&state.handled_ids);
        let unhandled: IdQueue = self.stored_queue(&state.unhandled_ids);
        let mut peer: PropPeer = PropPeer::new(copied(state.destination_hash.as_slice()));
        peer.alive = state.alive;
        peer.last_heard = state.last_heard;
        peer.peering_timebase = state.peering_timebase;
        peer.propagation_stamp_cost = state.propagation_stamp_cost;
        peer.propagation_stamp_flexibility = state.propagation_stamp_flexibility;
        peer.peering_cost = state.peering_cost;
        peer.propagation_transfer_limit = state.propagation_transfer_limit;
        peer.propagation_sync_limit = state.propagation_sync_limit;
        peer.peering_key = match &state.peering_key {
            Some(k) => Some((copied(k.0.as_slice()), k.1)),
            None => None,
        };
        peer.metadata = copied_opt(&state.metadata);
        peer.handled_ids = handled;
        peer.unhandled_ids = unhandled;
        let ghost p = peer@;
        match self.position(state.destination_hash.as_slice()) {
            Some(i) => {
                self.peers[i] = peer;
                proof {
                    assert(self@.peers =~= before.update(i as int, p));
                    lemma_with_peer_distinct(before, state.destination_hash@, p);
                }
            },
            None => {
                self.peers.push(peer);
                assert(self@.peers =~= before.push(p));
            },
        }
    }
}

/// A peer that says which messages it wants has the others that were offered: it
/// is marked with these, what it wants still waits for it, and the link stays
/// open for the transfer.
pub proof fn law_wanted_messages_still_wait(p: PeerView, ids: Seq<Seq<u8>>, x: Seq<u8>)
    ensures
        ({
            let after = answered(p, ResponseView::Wants(ids));
            &&& after.handled.contains(x) <==> p.handled.contains(x) || (p.last_offer.contains(x) && !ids.contains(x))
            &&& after.unhandled.contains(x) <==> p.unhandled.contains(x) && !(p.last_offer.contains(x) && !ids.contains(
                x,
            ))
            &&& after == (PeerView {
                handled: after.handled,
                unhandled: after.unhandled,
                state: PropPeer::RESPONSE_RECEIVED,
                ..p
            })
        }),
        asked_for(p, ResponseView::Wants(ids)) == Some(ids),
{
    let unwanted = p.last_offer.filter(not_wanted(ids));
    crate::octets::lemma_filter_holds(p.last_offer, not_wanted(ids));
    crate::lxmf_propagation::peer::law_marked_messages_are_with_the_peer(p, unwanted, x);
}

/// A peer that has everything is marked with all that was offered, and the
/// exchange is over. One that wants everything is asked to wait for all of it.
pub proof fn law_all_or_nothing_is_wanted(p: PeerView, x: Seq<u8>)
    ensures
        ({
            let after = answered(p, ResponseView::HasAll);
            &&& after.handled.contains(x) <==> p.handled.contains(x) || p.last_offer.contains(x)
            &&& after.unhandled.contains(x) <==> p.unhandled.contains(x) && !p.last_offer.contains(x)
            &&& after == (PeerView {
                handled: after.handled,
                unhandled: after.unhandled,
                state: PropPeer::IDLE,
                link: None,
                ..p
            })
        }),
        asked_for(p, ResponseView::HasAll) is None,
        answered(p, ResponseView::WantsAll) == (PeerView { state: PropPeer::RESPONSE_RECEIVED, ..p }),
        asked_for(p, ResponseView::WantsAll) == Some(p.last_offer),
{
    crate::lxmf_propagation::peer::law_marked_messages_are_with_the_peer(p, p.last_offer, x);
}

/// A refused offer settles no message. A peer that does not know this node is
/// identified to anew, and one that does not take its key is found a new one.
pub proof fn law_refused_offer_settles_nothing(p: PeerView)
    ensures
        answered(p, ResponseView::NoIdentity) == (PeerView { identified_link_id: None, state: PropPeer::IDLE, ..p }),
        answered(p, ResponseView::InvalidKey) == (PeerView {
            peering_key: None,
            identified_link_id: None,
            state: PropPeer::IDLE,
            ..p
        }),
        answered(p, ResponseView::Unexpected) == (PeerView { link: None, state: PropPeer::IDLE, ..p }),
        asked_for(p, ResponseView::NoIdentity) is None,
        asked_for(p, ResponseView::InvalidKey) is None,
        asked_for(p, ResponseView::AccessDenied) is None,
        asked_for(p, ResponseView::Unexpected) is None,
{
}

/// A peer that does not let this node in is given up, and any other answer
/// changes that peer alone.
pub proof fn law_answer_concerns_one_peer(n: NodeView, k: int, response: ResponseView, p: PeerView)
    requires
        crate::lxmf_propagation::node::peers_distinct(n.peers),
        0 <= k < n.peers.len(),
    ensures
        ({
            let after = node_answered(n, n.peers[k].destination_hash, response);
            &&& response is AccessDenied ==> (after.peers.contains(p) <==> n.peers.contains(p) && p.destination_hash
                != n.peers[k].destination_hash)
            &&& !(response is AccessDenied) ==> {
                &&& after.peers.len() == n.peers.len()
                &&& after.peers[k] == answered(n.peers[k], response)
                &&& forall|i: int| 0 <= i < n.peers.len() && i != k ==> #[trigger] after.peers[i] == n.peers[i]
            }
            &&& after == (NodeView { peers: after.peers, ..n })
        }),
{
    let hash = n.peers[k].destination_hash;
    crate::lxmf_propagation::node::law_only_the_named_peer_goes(n.peers, hash, p);
    crate::lxmf_propagation::node::law_other_peers_are_left_alone(n.peers, k, answered(n.peers[k], response));
    assert(has_peer(n.peers, hash));
}

/// A peer that a link was opened to was heard now, waits no longer for having
/// failed, and remembers what it is offered.
pub proof fn law_reached_peer_is_alive(p: PeerView, link_id: Seq<u8>, ids: Seq<Seq<u8>>, now: u64)
    ensures
        ({
            let after = with_link(p, link_id, ids, now);
            &&& after.link == Some(link_id)
            &&& after.last_offer == ids
            &&& after.alive
            &&& after.last_heard == now
            &&& after.sync_backoff == 0
            &&& after.state == PropPeer::LINK_READY
            &&& after.destination_hash == p.destination_hash
            &&& after.handled == p.handled
            &&& after.unhandled == p.unhandled
            &&& after.peering_key == p.peering_key
            &&& after.identified_link_id == p.identified_link_id
            &&& after.next_sync_attempt == p.next_sync_attempt
        }),
{
}

/// The files of the messages that are sent are those of the stored ones, each of
/// them, in the order in which they are wanted.
pub proof fn law_files_of_stored_messages(
    entries: Seq<(Seq<u8>, PropagationEntry)>,
    a: Seq<Seq<u8>>,
    b: Seq<Seq<u8>>,
    k: int,
    other: Seq<u8>,
)
    requires
        crate::id_map::distinct(entries),
        0 <= k < entries.len(),
        forall|i: int| 0 <= i < entries.len() ==> (#[trigger] entries[i]).0 != other,
    ensures
        stored_files(entries, a + b) == stored_files(entries, a) + stored_files(entries, b),
        stored_files(entries, seq![entries[k].0]) == seq![entries[k].1.filepath@],
        stored_files(entries, seq![other]).len() == 0,
        stored_files(entries, Seq::empty()).len() == 0,
    decreases b.len(),
{
    let one = seq![entries[k].0];
    assert(one.drop_last() =~= Seq::empty());
    assert(seq![other].drop_last() =~= Seq::empty());
    assert(stored_files(entries, one.drop_last()) =~= Seq::empty());
    assert(stored_files(entries, seq![other].drop_last()) =~= Seq::empty());
    crate::id_map::law_value_is_found(entries, k);
    assert(stored_files(entries, one) =~= seq![entries[k].1.filepath@]);
    if b.len() == 0 {
        assert(a + b =~= a);
        assert(stored_files(entries, a) + stored_files(entries, b) =~= stored_files(entries, a));
    } else {
        law_files_of_stored_messages(entries, a, b.drop_last(), k, other);
        assert((a + b).drop_last() =~= a + b.drop_last());
        assert((a + b).last() == b.last());
        assert(stored_files(entries, a + b) =~= stored_files(entries, a) + stored_files(entries, b));
    }
}

/// A transfer is made exactly where there is something to send and a link to the
/// peer.
pub proof fn law_when_a_transfer_is_made(n: NodeView, k: int, files: nat)
    requires
        crate::lxmf_propagation::node::peers_distinct(n.peers),
        0 <= k < n.peers.len(),
    ensures
        can_transfer(n, n.peers[k].destination_hash, files) <==> files > 0 && n.peers[k].link is Some,
{
    crate::lxmf_propagation::node::law_other_peers_are_left_alone(n.peers, k, n.peers[k]);
    assert(has_peer(n.peers, n.peers[k].destination_hash));
}

/// A peer that comes back lacks and has the messages that it did, as far as they
/// are still stored, and no other.
pub proof fn law_restored_peer_knows_stored_messages(
    s: PeerState,
    entries: Seq<(Seq<u8>, PropagationEntry)>,
    x: Seq<u8>,
)
    ensures
        ({
            let stored = exists|k: int| 0 <= k < entries.len() && (#[trigger] entries[k]).0 == x;
            let after = restored(s, entries);
            &&& after.handled.contains(x) <==> views(s.handled_ids@).contains(x) && stored
            &&& after.unhandled.contains(x) <==> views(s.unhandled_ids@).contains(x) && stored
            &&& after.destination_hash == s.destination_hash@
            &&& after.alive == s.alive
            &&& after.last_heard == s.last_heard
            &&& after.peering_cost == s.peering_cost
            &&& after.state == PropPeer::IDLE
            &&& after.link is None
        }),
{
    let keep = is_stored(entries);
    let handled = views(s.handled_ids@);
    let unhandled = views(s.unhandled_ids@);
    crate::octets::law_distinct_of(handled.filter(keep));
    crate::octets::law_distinct_of(unhandled.filter(keep));
    crate::octets::lemma_filter_holds(handled, keep);
    crate::octets::lemma_filter_holds(unhandled, keep);
    assert(keep(x) <==> has_key(entries, x));
    assert(distinct_of(handled.filter(keep)).contains(x) <==> handled.filter(keep).contains(x));
    assert(distinct_of(unhandled.filter(keep)).contains(x) <==> unhandled.filter(keep).contains(x));
    assert(handled.filter(keep).contains(x) <==> handled.contains(x) && keep(x));
    assert(unhandled.filter(keep).contains(x) <==> unhandled.contains(x) && keep(x));
}

/// What becomes of a peer that is not known any more changes nothing, and what
/// becomes of one that is changes no other.
pub proof fn law_change_concerns_one_peer(n: NodeView, k: int, p: PeerView, other: Seq<u8>)
    requires
        crate::lxmf_propagation::node::peers_distinct(n.peers),
        0 <= k < n.peers.len(),
        forall|i: int| 0 <= i < n.peers.len() ==> (#[trigger] n.peers[i]).destination_hash != other,
    ensures
        with_peer_as(n, other, p) == n,
        with_peer_as(n, n.peers[k].destination_hash, p).peers.len() == n.peers.len(),
        with_peer_as(n, n.peers[k].destination_hash, p).peers[k] == p,
        forall|i: int|
            0 <= i < n.peers.len() && i != k ==> #[trigger] with_peer_as(
                n,
                n.peers[k].destination_hash,
                p,
            ).peers[i] == n.peers[i],
        with_peer_as(n, n.peers[k].destination_hash, p).entries == n.entries,
{
    crate::lxmf_propagation::node::law_other_peers_are_left_alone(n.peers, k, p);
    assert(has_peer(n.peers, n.peers[k].destination_hash));
    assert(!has_peer(n.peers, other));
}

/// A peer at rest has no link and no exchange under way, and is otherwise as it
/// was.
pub proof fn law_peer_at_rest(p: PeerView)
    ensures
        at_rest(p).state == PropPeer::IDLE,
        at_rest(p).link is None,
        at_rest(p) == (PeerView { state: at_rest(p).state, link: at_rest(p).link, ..p }),
{
}

/// After an answer exactly what the peer asked for is sent: what it names, or all
/// that it was offered. Nothing is sent to a peer that refuses, that has
/// everything, or that is not known any more.
pub proof fn law_what_is_sent_after_an_answer(
    node: &mut LxmfPropagationNode,
    hash: &[u8],
    response: OfferResponse,
    r: ResponseStep,
    k: int,
)
    requires
        call_ensures(LxmfPropagationNode::handle_offer_response, (node, hash, response), r),
        crate::lxmf_propagation::node::peers_distinct(old(node)@.peers),
        0 <= k < old(node)@.peers.len(),
        hash@ == old(node)@.peers[k].destination_hash,
    ensures
        r is Send <==> response@ is Wants || response@ is WantsAll,
        response@ is WantsAll ==> views(r->Send_0@) == old(node)@.peers[k].last_offer,
        response@ is Wants ==> views(r->Send_0@) == response@->Wants_0,
        response@ is AccessDenied ==> !has_peer(final(node)@.peers, hash@),
        !(response@ is AccessDenied) ==> forall|i: int|
            0 <= i < old(node)@.peers.len() && i != k ==> #[trigger] final(node)@.peers[i] == old(node)@.peers[i],
        final(node)@.entries == old(node)@.entries,
{
    let n = old(node)@;
    assert(has_peer(n.peers, hash@));
    crate::lxmf_propagation::node::lemma_peer_at(n.peers, k);
    law_answer_concerns_one_peer(n, k, response@, n.peers[k]);
    if response@ is AccessDenied && has_peer(final(node)@.peers, hash@) {
        let left = final(node)@.peers;
        let j = choose|j: int| 0 <= j < left.len() && (#[trigger] left[j]).destination_hash == hash@;
        crate::lxmf_propagation::node::law_only_the_named_peer_goes(n.peers, hash@, left[j]);
        assert(left.contains(left[j]));
    }
}

/// What was sent to a peer counts as with it, and waits for it no longer. Where
/// nothing can be sent, nothing counts as sent.
pub proof fn law_sent_messages_are_with_the_peer(
    node: &mut LxmfPropagationNode,
    hash: &[u8],
    ids: &Vec<Vec<u8>>,
    messages: Vec<Vec<u8>>,
    r: Option<Vec<u8>>,
    k: int,
    x: Seq<u8>,
)
    requires
        call_ensures(LxmfPropagationNode::begin_transfer, (node, hash, ids, messages), r),
        crate::lxmf_propagation::node::peers_distinct(old(node)@.peers),
        0 <= k < old(node)@.peers.len(),
        hash@ == old(node)@.peers[k].destination_hash,
    ensures
        r is Some <==> messages@.len() > 0 && old(node)@.peers[k].link is Some,
        r is None ==> final(node)@ == old(node)@,
        r is Some ==> {
            let before = old(node)@.peers[k];
            let after = final(node)@.peers[k];
            &&& after.handled.contains(x) <==> before.handled.contains(x) || views(ids@).contains(x)
            &&& after.unhandled.contains(x) <==> before.unhandled.contains(x) && !views(ids@).contains(x)
            &&& after.link == before.link
        },
{
    let n = old(node)@;
    law_when_a_transfer_is_made(n, k, messages@.len());
    assert(has_peer(n.peers, hash@));
    crate::lxmf_propagation::node::lemma_peer_at(n.peers, k);
    let marked = with_all_handled(n.peers[k], views(ids@));
    crate::lxmf_propagation::node::law_other_peers_are_left_alone(n.peers, k, marked);
    crate::lxmf_propagation::peer::law_marked_messages_are_with_the_peer(n.peers[k], views(ids@), x);
}

/// A peer that was reached is offered the messages only where this node was
/// identified on that very link and has the key for it. Reaching it ends the time
/// for which it was left alone.
pub proof fn law_what_is_done_with_a_link(
    node: &mut LxmfPropagationNode,
    hash: &[u8],
    link_id: &[u8],
    ids: &Vec<Vec<u8>>,
    now: u64,
    r: OfferStep,
    k: int,
)
    requires
        call_ensures(LxmfPropagationNode::offer_link_ready, (node, hash, link_id, ids, now), r),
        crate::lxmf_propagation::node::peers_distinct(old(node)@.peers),
        0 <= k < old(node)@.peers.len(),
        hash@ == old(node)@.peers[k].destination_hash,
    ensures
        ({
            let p = old(node)@.peers[k];
            let known = p.identified_link_id is Some && p.identified_link_id->0 == link_id@;
            &&& r is Identify <==> !known
            &&& r is NoKey <==> known && p.peering_key is None
            &&& r is Send <==> known && p.peering_key is Some
            &&& !(r is NoPeer)
            &&& final(node)@.peers[k].last_offer == views(ids@)
            &&& final(node)@.peers[k].link == Some(link_id@)
            &&& final(node)@.peers[k].alive
            &&& final(node)@.peers[k].last_heard == now
            &&& final(node)@.peers[k].sync_backoff == 0
            &&& final(node)@.peers[k].unhandled == p.unhandled
        }),
        forall|i: int|
            0 <= i < old(node)@.peers.len() && i != k ==> #[trigger] final(node)@.peers[i] == old(node)@.peers[i],
{
    let peers = old(node)@.peers;
    assert(has_peer(peers, hash@));
    crate::lxmf_propagation::node::lemma_peer_at(peers, k);
    crate::lxmf_propagation::node::law_other_peers_are_left_alone(
        peers,
        k,
        with_link(peers[k], link_id@, views(ids@), now),
    );
}

/// An offer that went out is waited on, and one that did not leaves the peer at
/// rest, with everything still to be offered.
pub proof fn law_offer_that_went_out(node: &mut LxmfPropagationNode, hash: &[u8], ok: bool, k: int)
    requires
        call_ensures(LxmfPropagationNode::offer_sent, (node, hash, ok), ()),
        crate::lxmf_propagation::node::peers_distinct(old(node)@.peers),
        0 <= k < old(node)@.peers.len(),
        hash@ == old(node)@.peers[k].destination_hash,
    ensures
        ok ==> final(node)@.peers[k].state == PropPeer::REQUEST_SENT && final(node)@.peers[k].link
            == old(node)@.peers[k].link,
        !ok ==> final(node)@.peers[k].state == PropPeer::IDLE && final(node)@.peers[k].link is None,
        final(node)@.peers[k].unhandled == old(node)@.peers[k].unhandled,
        final(node)@.peers[k].handled == old(node)@.peers[k].handled,
        final(node)@.entries == old(node)@.entries,
{
    let peers = old(node)@.peers;
    assert(has_peer(peers, hash@));
    crate::lxmf_propagation::node::lemma_peer_at(peers, k);
    let p = if ok {
        PeerView { state: PropPeer::REQUEST_SENT, ..peers[k] }
    } else {
        at_rest(peers[k])
    };
    crate::lxmf_propagation::node::law_other_peers_are_left_alone(peers, k, p);
}

} // verus!
