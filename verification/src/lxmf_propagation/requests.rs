//! What a propagation node answers to peers that offer messages and to
//! clients that ask for theirs.
use vstd::prelude::*;
use crate::digest::{destination_hash, destination_hash_of, texts};
use crate::fields::Number;
use crate::id_map::{distinct, has_key, keys_of, value_of, without};
use crate::lxmf_propagation::node::{
    LxmfPropagationNode, NodeView, PropagationEntry, Settings, DELIVERY_ASPECT, LXMF_APP, PROP_ASPECT,
};
use crate::lxmf_propagation::store::in_order;
use crate::lxmf_propagation::wire::{
    asks_for, encode_error, encode_list, encode_offer_reply, error_reply, get_fields, list_value, offer_fields, offer_of,
    offer_reply_value, selection_of, GetRequest, Selection, SelectionView, ERROR_INVALID_DATA, ERROR_INVALID_KEY, ERROR_NO_ACCESS,
    ERROR_NO_IDENTITY,
};
use crate::msgpack::{msgpack_read, msgpack_write, read_value, Decoded, Packed};
use crate::octets::{copied, holds, joined, lemma_filter_ends, lemma_filter_step, same_bytes, slice_of, views};
use crate::order::{sorted_positions, stable_order};
use crate::text::text_views;

verus! {

/// The bytes of a stamp at the end of a message's file.
pub const STAMP_SIZE: usize = 32;

/// The bytes that an answer takes up before its first message.
pub const ANSWER_OVERHEAD: usize = 24;

/// The bytes that a message takes up in an answer beyond its own.
pub const MESSAGE_OVERHEAD: usize = 16;

/// An offer that this node considers.
pub struct OfferRequest {
    /// The key that shows the peer's work.
    pub peering_key: Vec<u8>,
    /// What the key is bound to: the two identities.
    pub material: Vec<u8>,
    /// The offered messages.
    pub ids: Vec<Vec<u8>>,
}

/// What a value holds, where there is one.
pub open spec fn opt_packed(v: Option<Decoded>) -> Option<Packed> {
    match v {
        Some(d) => Some(d@),
        None => None,
    }
}

/// The error that an offer is refused with, if it is: the caller is not
/// known, is not a configured peer where only those are let in, or did not
/// make an offer.
pub open spec fn offer_refusal(settings: Settings, remote: Option<Seq<u8>>, request: Option<Packed>) -> Option<u8> {
    match remote {
        None => Some(ERROR_NO_IDENTITY),
        Some(identity) => if settings.from_static_only && !views(settings.static_peers@).contains(
            destination_hash_of(identity, LXMF_APP@, seq![PROP_ASPECT@]),
        ) {
            Some(ERROR_NO_ACCESS)
        } else {
            match request {
                Some(p) => if offer_of(p) is Some {
                    None
                } else {
                    Some(ERROR_INVALID_DATA)
                },
                None => Some(ERROR_INVALID_DATA),
            }
        },
    }
}

/// The contents of a caller's identity hash, where the caller is known.
pub open spec fn remote_view(remote: Option<&[u8]>) -> Option<Seq<u8>> {
    match remote {
        Some(r) => Some(r@),
        None => None,
    }
}

/// The test that a message is not among the stored ones.
pub open spec fn not_stored(entries: Seq<(Seq<u8>, PropagationEntry)>) -> spec_fn(Seq<u8>) -> bool {
    |id: Seq<u8>| !has_key(entries, id)
}

impl LxmfPropagationNode {
    /// Considers a decoded offer of the peer with this identity hash: what is
    /// to be validated, or the answer that refuses it.
    pub fn consider_offer(&self, request: &Option<Decoded>, remote: Option<&[u8]>) -> (r: Result<OfferRequest, Vec<u8>>)
        ensures
            r is Err <==> offer_refusal(self.settings, remote_view(remote), opt_packed(*request)) is Some,
            r matches Err(e) ==> e@ == error_reply(
                offer_refusal(self.settings, remote_view(remote), opt_packed(*request))->0,
            ),
            r matches Ok(o) ==> offer_of(opt_packed(*request)->0) == Some((o.peering_key@, views(o.ids@)))
                && o.material@ == self.settings.identity_hash@ + remote->0@,
    {
        let identity: &[u8] = match remote {
            Some(i) => i,
            None => return Err(encode_error(ERROR_NO_IDENTITY)),
        };
        if self.settings.from_static_only {
            let aspects: [&str; 1] = [PROP_ASPECT];
            let theirs: Vec<u8> = destination_hash(identity, LXMF_APP, &aspects);
            assert(texts(aspects@) =~= seq![PROP_ASPECT@]);
            if !holds(self.settings.static_peers.as_slice(), theirs.as_slice()) {
                return Err(encode_error(ERROR_NO_ACCESS));
            }
        }
        let value: &Decoded = match request {
            Some(v) => v,
            None => return Err(encode_error(ERROR_INVALID_DATA)),
        };
        match offer_fields(value) {
            Some(fields) => {
                let material: Vec<u8> = joined(self.settings.identity_hash.as_slice(), identity);
                Ok(OfferRequest { peering_key: fields.0, material, ids: fields.1 })
            },
            None => Err(encode_error(ERROR_INVALID_DATA)),
        }
    }

    /// Considers an offer in its wire form.
    pub fn open_offer(&self, data: &[u8], remote: Option<&[u8]>) -> (r: Result<OfferRequest, Vec<u8>>)
        ensures
            r is Err <==> offer_refusal(self.settings, remote_view(remote), msgpack_read(data@)) is Some,
            r matches Err(e) ==> e@ == error_reply(
                offer_refusal(self.settings, remote_view(remote), msgpack_read(data@))->0,
            ),
            r matches Ok(o) ==> offer_of(msgpack_read(data@)->0) == Some((o.peering_key@, views(o.ids@)))
                && o.material@ == self.settings.identity_hash@ + remote->0@,
    {
        let value: Option<Decoded> = read_value(data);
        self.consider_offer(&value, remote)
    }

    /// The messages of a list that are not stored here, in order.
    pub fn lacking(&self, ids: &Vec<Vec<u8>>) -> (r: Vec<Vec<u8>>)
        requires
            self.wf(),
        ensures
            views(r@) == views(ids@).filter(not_stored(self@.entries)),
    {
        let ghost all = views(ids@);
        let ghost keep = not_stored(self@.entries);
        let mut out: Vec<Vec<u8>> = Vec::new();
        let mut i: usize = 0;
        proof {
            lemma_filter_ends(all, keep);
            assert(views(out@) =~= Seq::empty());
        }
        while i < ids.len()
            invariant
                self.wf(),
                0 <= i <= ids@.len(),
                all == views(ids@),
                keep == not_stored(self@.entries),
                views(out@) == all.take(i as int).filter(keep),
            decreases ids@.len() - i,
        {
            proof {
                lemma_filter_step(all, keep, i as int);
            }
            if !self.entries.contains(ids[i].as_slice()) {
                let ghost before = out@;
                let item: Vec<u8> = copied(ids[i].as_slice());
                out.push(item);
                assert(views(out@) =~= views(before).push(item@));
            }
            i += 1;
        }
        proof {
            lemma_filter_ends(all, keep);
        }
        out
    }

    /// The answer to an offer, once its key has been judged: an error where
    /// the key is not strong enough, and otherwise which messages are lacking.
    pub fn answer_offer(&self, request: &OfferRequest, key_is_valid: bool) -> (r: Vec<u8>)
        requires
            self.wf(),
        ensures
            r@ == (if !key_is_valid {
                error_reply(ERROR_INVALID_KEY)
            } else {
                msgpack_write(
                    offer_reply_value(
                        views(request.ids@).filter(not_stored(self@.entries)),
                        request.ids@.len(),
                    ),
                )
            }),
    {
        if !key_is_valid {
            return encode_error(ERROR_INVALID_KEY);
        }
        encode_offer_reply(self.lacking(&request.ids), request.ids.len())
    }
}

/// The test that a message is for a destination.
pub open spec fn is_for(dest: Seq<u8>) -> spec_fn((Seq<u8>, PropagationEntry)) -> bool {
    |e: (Seq<u8>, PropagationEntry)| e.1.destination_hash@ == dest
}

/// The sizes of the messages of a list.
pub open spec fn size_keys(entries: Seq<(Seq<u8>, PropagationEntry)>) -> Seq<u128> {
    entries.map_values(|e: (Seq<u8>, PropagationEntry)| e.1.size as u128)
}

/// The places of messages, smallest first.
pub open spec fn size_order(entries: Seq<(Seq<u8>, PropagationEntry)>) -> Seq<usize> {
    choose|order: Seq<usize>| stable_order(size_keys(entries), order)
}

/// The ids of the messages for a destination, smallest first.
pub open spec fn listing_of(entries: Seq<(Seq<u8>, PropagationEntry)>, dest: Seq<u8>) -> Seq<Seq<u8>> {
    let mine = entries.filter(is_for(dest));
    keys_of(in_order(mine, size_order(mine)))
}

/// A listing names each message for the destination, smallest first.
pub proof fn law_listing_rises(entries: Seq<(Seq<u8>, PropagationEntry)>, dest: Seq<u8>)
    requires
        entries.len() <= usize::MAX,
    ensures
        ({
            let mine = entries.filter(is_for(dest));
            let listed = in_order(mine, size_order(mine));
            &&& stable_order(size_keys(mine), size_order(mine))
            &&& listing_of(entries, dest) == keys_of(listed)
            &&& listed.len() == mine.len()
            &&& forall|e: (Seq<u8>, PropagationEntry)| mine.contains(e) ==> #[trigger] listed.contains(e)
            &&& forall|i: int, j: int|
                0 <= i < j < listed.len() ==> (#[trigger] listed[i]).1.size <= (#[trigger] listed[j]).1.size
        }),
{
    let mine = entries.filter(is_for(dest));
    entries.lemma_filter_len(is_for(dest));
    crate::order::law_stable_order_exists(size_keys(mine));
    let order = size_order(mine);
    let listed = in_order(mine, order);
    assert forall|e: (Seq<u8>, PropagationEntry)| mine.contains(e) implies #[trigger] listed.contains(e) by {
        let k = mine.index_of(e);
        assert(order.contains(k as usize));
        let i = order.index_of(k as usize);
        assert(listed[i] == e);
    }
    assert forall|i: int, j: int| 0 <= i < j < listed.len() implies (#[trigger] listed[i]).1.size <= (
    #[trigger] listed[j]).1.size by {
        assert(crate::order::precedes(size_keys(mine), order[i] as int, order[j] as int));
    }
}

/// Whether there is a message under `id`, and it is for `dest`.
pub open spec fn holds_for(entries: Seq<(Seq<u8>, PropagationEntry)>, dest: Seq<u8>, id: Seq<u8>) -> bool {
    has_key(entries, id) && value_of(entries, id).destination_hash@ == dest
}

/// The messages that are left, and the files that are not needed any more,
/// once a client has said which of its messages it has.
pub open spec fn after_haves(entries: Seq<(Seq<u8>, PropagationEntry)>, dest: Seq<u8>, ids: Seq<Seq<u8>>) -> (
    Seq<(Seq<u8>, PropagationEntry)>,
    Seq<Seq<char>>,
)
    decreases ids.len(),
{
    if ids.len() == 0 {
        (entries, Seq::empty())
    } else {
        let (rest, files) = after_haves(entries, dest, ids.drop_last());
        let id = ids.last();
        if holds_for(rest, dest, id) {
            (without(rest, id), files.push(value_of(rest, id).filepath@))
        } else {
            (rest, files)
        }
    }
}

/// Once a client has said which messages it has, exactly those are gone that
/// are for it and that it has: no message for another destination is touched.
pub proof fn law_only_own_messages_go(
    entries: Seq<(Seq<u8>, PropagationEntry)>,
    dest: Seq<u8>,
    ids: Seq<Seq<u8>>,
    e: (Seq<u8>, PropagationEntry),
)
    requires
        distinct(entries),
    ensures
        distinct(after_haves(entries, dest, ids).0),
        after_haves(entries, dest, ids).0.contains(e) <==> entries.contains(e) && !(e.1.destination_hash@ == dest
            && ids.contains(e.0)),
    decreases ids.len(),
{
    if ids.len() > 0 {
        law_only_own_messages_go(entries, dest, ids.drop_last(), e);
        let rest = after_haves(entries, dest, ids.drop_last()).0;
        let id = ids.last();
        assert(ids.contains(e.0) <==> ids.drop_last().contains(e.0) || e.0 == id) by {
            if ids.contains(e.0) {
                let k = ids.index_of(e.0);
                if k < ids.len() - 1 {
                    assert(ids.drop_last()[k] == e.0);
                }
            }
            if ids.drop_last().contains(e.0) {
                let k = ids.drop_last().index_of(e.0);
                assert(ids[k] == e.0);
            }
        }
        crate::octets::lemma_filter_holds(rest, crate::id_map::not_under::<PropagationEntry>(id));
        crate::id_map::lemma_filter_distinct(rest, crate::id_map::not_under::<PropagationEntry>(id));
        if rest.contains(e) && e.0 == id {
            crate::id_map::lemma_value_of(rest, id, e.1);
        }
    }
}

/// The files of the messages of a list that are stored for `dest`, in order.
pub open spec fn wanted_of(entries: Seq<(Seq<u8>, PropagationEntry)>, dest: Seq<u8>, ids: Seq<Seq<u8>>) -> Seq<
    Seq<char>,
>
    decreases ids.len(),
{
    if ids.len() == 0 {
        Seq::empty()
    } else {
        let rest = wanted_of(entries, dest, ids.drop_last());
        if holds_for(entries, dest, ids.last()) {
            rest.push(value_of(entries, ids.last()).filepath@)
        } else {
            rest
        }
    }
}

/// Each id under which a message for `dest` is stored gives its file, in the
/// order in which they are asked for, and no other id gives any.
pub proof fn law_every_wanted_file_is_read(
    entries: Seq<(Seq<u8>, PropagationEntry)>,
    dest: Seq<u8>,
    ids: Seq<Seq<u8>>,
    stored: spec_fn(Seq<u8>) -> bool,
    file: spec_fn(Seq<u8>) -> Seq<char>,
)
    requires
        crate::id_map::distinct(entries),
        forall|id: Seq<u8>| #[trigger]
            stored(id) <==> exists|k: int|
                0 <= k < entries.len() && (#[trigger] entries[k]).0 == id && entries[k].1.destination_hash@ == dest,
        forall|k: int| 0 <= k < entries.len() ==> file((#[trigger] entries[k]).0) == entries[k].1.filepath@,
    ensures
        wanted_of(entries, dest, ids) == ids.filter(stored).map_values(file),
    decreases ids.len(),
{
    reveal(Seq::filter);
    if ids.len() > 0 {
        let rest = ids.drop_last();
        let id = ids.last();
        law_every_wanted_file_is_read(entries, dest, rest, stored, file);
        if has_key(entries, id) {
            let k = choose|k: int| 0 <= k < entries.len() && (#[trigger] entries[k]).0 == id;
            assert(value_of(entries, id) == entries[k].1) by {
                crate::id_map::law_value_is_found(entries, k);
            }
            if stored(id) {
                let j = choose|j: int|
                    0 <= j < entries.len() && (#[trigger] entries[j]).0 == id && entries[j].1.destination_hash@ == dest;
                crate::id_map::law_value_is_found(entries, j);
            }
        } else if stored(id) {
            let j = choose|j: int|
                0 <= j < entries.len() && (#[trigger] entries[j]).0 == id && entries[j].1.destination_hash@ == dest;
            assert(entries[j].0 == id);
        }
        assert(stored(id) == holds_for(entries, dest, id));
    }
    assert(wanted_of(entries, dest, ids) =~= ids.filter(stored).map_values(file));
}

/// What is read for two lists of ids one after the other is what is read for
/// each of them.
pub proof fn law_wanted_lists_add_up(
    entries: Seq<(Seq<u8>, PropagationEntry)>,
    dest: Seq<u8>,
    a: Seq<Seq<u8>>,
    b: Seq<Seq<u8>>,
)
    ensures
        wanted_of(entries, dest, a + b) == wanted_of(entries, dest, a) + wanted_of(entries, dest, b),
    decreases b.len(),
{
    if b.len() == 0 {
        assert(a + b =~= a);
        assert(wanted_of(entries, dest, a) + wanted_of(entries, dest, b) =~= wanted_of(entries, dest, a));
    } else {
        law_wanted_lists_add_up(entries, dest, a, b.drop_last());
        assert((a + b).drop_last() =~= a + b.drop_last());
        assert((a + b).last() == b.last());
        assert(wanted_of(entries, dest, a + b) =~= wanted_of(entries, dest, a) + wanted_of(entries, dest, b));
    }
}

/// The messages of an answer, and the bytes that it takes up: each file that
/// could be read and still fits, without the stamp at its end.
pub open spec fn served_of(files: Seq<Option<Seq<u8>>>, limit: Option<u64>) -> (Seq<Seq<u8>>, nat)
    decreases files.len(),
{
    if files.len() == 0 {
        (Seq::empty(), ANSWER_OVERHEAD as nat)
    } else {
        let (out, size) = served_of(files.drop_last(), limit);
        match files.last() {
            Some(f) => {
                let next = size + f.len() + MESSAGE_OVERHEAD as nat;
                if limit matches Some(most) && next > most {
                    (out, size)
                } else {
                    (out.push(unstamped(f)), next)
                }
            },
            None => (out, size),
        }
    }
}

/// A file without the stamp at its end.
pub open spec fn unstamped(file: Seq<u8>) -> Seq<u8> {
    if file.len() < STAMP_SIZE {
        Seq::empty()
    } else {
        file.take(file.len() - STAMP_SIZE)
    }
}

/// The contents of files, where they could be read.
pub open spec fn file_views(files: Seq<Option<Vec<u8>>>) -> Seq<Option<Seq<u8>>> {
    files.map_values(|f: Option<Vec<u8>>| crate::octets::opt_view(f))
}

/// An answer stays within the limit of the client, as long as it leaves room
/// for an answer without messages.
pub proof fn law_answer_is_within_limit(files: Seq<Option<Seq<u8>>>, limit: u64)
    requires
        limit >= ANSWER_OVERHEAD,
    ensures
        served_of(files, Some(limit)).1 <= limit,
    decreases files.len(),
{
    if files.len() > 0 {
        law_answer_is_within_limit(files.drop_last(), limit);
    }
}

/// What a client is sent is what the sender sent, whatever stamp was stored
/// behind it.
pub proof fn law_client_gets_the_message(message: Seq<u8>, stamp: Seq<u8>)
    requires
        stamp.len() == STAMP_SIZE,
    ensures
        unstamped(message + stamp) == message,
{
    assert(unstamped(message + stamp) =~= message);
}

impl LxmfPropagationNode {
    /// Considers a decoded request for messages of the client with this
    /// identity hash: the request and the destination of the client's
    /// messages, or the answer that refuses it.
    pub fn consider_get(&self, request: &Option<Decoded>, remote: Option<&[u8]>) -> (r: Result<
        (GetRequest, Vec<u8>),
        Vec<u8>,
    >)
        ensures
            remote is None ==> (r matches Err(e) && e@ == error_reply(ERROR_NO_IDENTITY)),
            remote is Some && (opt_packed(*request) is None || crate::fields::array_of(opt_packed(*request)->0) is None)
                ==> (r matches Err(e) && e@ == error_reply(ERROR_INVALID_DATA)),
            remote is Some && opt_packed(*request) is Some && crate::fields::array_of(opt_packed(*request)->0) is Some
                ==> (r matches Ok(q) && asks_for(q.0, opt_packed(*request)->0) && q.1@ == destination_hash_of(
                remote->0@,
                LXMF_APP@,
                seq![DELIVERY_ASPECT@],
            )),
    {
        let identity: &[u8] = match remote {
            Some(i) => i,
            None => return Err(encode_error(ERROR_NO_IDENTITY)),
        };
        let aspects: [&str; 1] = [DELIVERY_ASPECT];
        let dest: Vec<u8> = destination_hash(identity, LXMF_APP, &aspects);
        assert(texts(aspects@) =~= seq![DELIVERY_ASPECT@]);
        let value: &Decoded = match request {
            Some(v) => v,
            None => return Err(encode_error(ERROR_INVALID_DATA)),
        };
        match get_fields(value) {
            Some(q) => Ok((q, dest)),
            None => Err(encode_error(ERROR_INVALID_DATA)),
        }
    }

    /// Considers a request for messages in its wire form.
    pub fn open_get(&self, data: &[u8], remote: Option<&[u8]>) -> (r: Result<(GetRequest, Vec<u8>), Vec<u8>>)
        ensures
            remote is None ==> (r matches Err(e) && e@ == error_reply(ERROR_NO_IDENTITY)),
            remote is Some && (msgpack_read(data@) is None || crate::fields::array_of(msgpack_read(data@)->0) is None)
                ==> (r matches Err(e) && e@ == error_reply(ERROR_INVALID_DATA)),
            remote is Some && msgpack_read(data@) is Some && crate::fields::array_of(msgpack_read(data@)->0) is Some
                ==> (r matches Ok(q) && asks_for(q.0, msgpack_read(data@)->0) && q.1@ == destination_hash_of(
                remote->0@,
                LXMF_APP@,
                seq![DELIVERY_ASPECT@],
            )),
    {
        let value: Option<Decoded> = read_value(data);
        self.consider_get(&value, remote)
    }

    /// The ids of the messages for a destination, smallest first.
    pub fn listing(&self, dest: &[u8]) -> (r: Vec<Vec<u8>>)
        requires
            self.wf(),
        ensures
            views(r@) == listing_of(self@.entries, dest@),
    {
        let ghost all = self.entries@;
        let ghost keep = is_for(dest@);
        let ghost mine = all.filter(keep);
        let pairs: Vec<(&Vec<u8>, &PropagationEntry)> = self.entries.pairs();
        let mut ids: Vec<Vec<u8>> = Vec::new();
        let mut keys: Vec<u128> = Vec::new();
        let mut i: usize = 0;
        proof {
            lemma_filter_ends(all, keep);
            assert(views(ids@) =~= keys_of(all.take(0).filter(keep)));
            assert(keys@ =~= size_keys(all.take(0).filter(keep)));
        }
        while i < pairs.len()
            invariant
                0 <= i <= pairs@.len(),
                keep == is_for(dest@),
                pairs@.len() == all.len(),
                forall|j: int|
                    0 <= j < pairs@.len() ==> (#[trigger] pairs@[j]).0@ == all[j].0 && *pairs@[j].1 == all[j].1,
                views(ids@) == keys_of(all.take(i as int).filter(keep)),
                keys@ == size_keys(all.take(i as int).filter(keep)),
            decreases pairs@.len() - i,
        {
            proof {
                lemma_filter_step(all, keep, i as int);
            }
            let ghost kept = all.take(i as int).filter(keep);
            let entry: &PropagationEntry = pairs[i].1;
            if same_bytes(entry.destination_hash.as_slice(), dest) {
                let ghost ids0 = ids@;
                let id: Vec<u8> = copied(pairs[i].0.as_slice());
                ids.push(id);
                keys.push(entry.size as u128);
                proof {
                    assert(views(ids@) =~= views(ids0).push(id@));
                    assert(keys_of(kept.push(all[i as int])) =~= keys_of(kept).push(all[i as int].0));
                    assert(size_keys(kept.push(all[i as int])) =~= size_keys(kept).push(all[i as int].1.size as u128));
                }
            }
            i += 1;
        }
        proof {
            lemma_filter_ends(all, keep);
        }
        let order: Vec<usize> = sorted_positions(&keys);
        proof {
            crate::order::law_stable_order_is_unique(size_keys(mine), order@, size_order(mine));
        }
        let mut out: Vec<Vec<u8>> = Vec::new();
        let mut j: usize = 0;
        while j < order.len()
            invariant
                0 <= j <= order@.len(),
                stable_order(size_keys(mine), order@),
                views(ids@) == keys_of(mine),
                out@.len() == j,
                forall|k: int| 0 <= k < j ==> (#[trigger] out@[k])@ == keys_of(in_order(mine, order@))[k],
            decreases order@.len() - j,
        {
            let p: usize = order[j];
            assert(p < keys_of(mine).len());
            assert(views(ids@).len() == ids@.len());
            assert(views(ids@)[p as int] == ids@[p as int]@);
            out.push(copied(ids[p].as_slice()));
            j += 1;
        }
        assert(views(out@) =~= keys_of(in_order(mine, order@)));
        out
    }

    /// The wire form of the ids of the messages for a destination.
    pub fn answer_listing(&self, dest: &[u8]) -> (r: Vec<u8>)
        requires
            self.wf(),
        ensures
            r@ == msgpack_write(list_value(listing_of(self@.entries, dest@))),
    {
        encode_list(self.listing(dest))
    }

    fn file_for(&self, dest: &[u8], id: &[u8]) -> (r: Option<String>)
        requires
            self.wf(),
        ensures
            r is Some <==> holds_for(self@.entries, dest@, id@),
            r matches Some(f) ==> f@ == value_of(self@.entries, id@).filepath@,
    {
        match self.entries.get(id) {
            Some(entry) => {
                if same_bytes(entry.destination_hash.as_slice(), dest) {
                    Some(entry.filepath.as_str().to_owned())
                } else {
                    None
                }
            },
            None => None,
        }
    }

    /// Drops the messages of a destination that its client has. Returns their
    /// files.
    pub fn drop_haves(&mut self, dest: &[u8], ids: &Vec<Vec<u8>>) -> (r: Vec<String>)
        requires
            old(self).wf(),
        ensures
            final(self).wf(),
            text_views(r@) == after_haves(old(self)@.entries, dest@, views(ids@)).1,
            final(self)@ == (NodeView {
                entries: after_haves(old(self)@.entries, dest@, views(ids@)).0,
                ..old(self)@
            }),
    {
        let ghost all = views(ids@);
        let ghost before = self@;
        let mut files: Vec<String> = Vec::new();
        let mut i: usize = 0;
        assert(text_views(files@) =~= Seq::empty());
        while i < ids.len()
            invariant
                self.wf(),
                0 <= i <= ids@.len(),
                all == views(ids@),
                before == old(self)@,
                text_views(files@) == after_haves(before.entries, dest@, all.take(i as int)).1,
                self@ == (NodeView { entries: after_haves(before.entries, dest@, all.take(i as int)).0, ..before }),
            decreases ids@.len() - i,
        {
            proof {
                assert(all.take(i + 1).drop_last() =~= all.take(i as int));
                assert(all.take(i + 1).last() == ids@[i as int]@);
            }
            if let Some(file) = self.file_for(dest, ids[i].as_slice()) {
                self.entries.remove(ids[i].as_slice());
                let ghost files0 = files@;
                files.push(file);
                assert(text_views(files@) =~= text_views(files0).push(file@));
            }
            i += 1;
        }
        assert(all.take(ids@.len() as int) =~= all);
        files
    }

    /// The files of the wanted messages of a destination, in order.
    pub fn wanted_files(&self, dest: &[u8], ids: &Vec<Vec<u8>>) -> (r: Vec<String>)
        requires
            self.wf(),
        ensures
            text_views(r@) == wanted_of(self@.entries, dest@, views(ids@)),
    {
        let ghost all = views(ids@);
        let mut files: Vec<String> = Vec::new();
        let mut i: usize = 0;
        assert(text_views(files@) =~= Seq::empty());
        while i < ids.len()
            invariant
                self.wf(),
                0 <= i <= ids@.len(),
                all == views(ids@),
                text_views(files@) == wanted_of(self@.entries, dest@, all.take(i as int)),
            decreases ids@.len() - i,
        {
            proof {
                assert(all.take(i + 1).drop_last() =~= all.take(i as int));
                assert(all.take(i + 1).last() == ids@[i as int]@);
            }
            if let Some(file) = self.file_for(dest, ids[i].as_slice()) {
                let ghost files0 = files@;
                files.push(file);
                assert(text_views(files@) =~= text_views(files0).push(file@));
            }
            i += 1;
        }
        assert(all.take(ids@.len() as int) =~= all);
        files
    }

    /// The answer to a client that wants messages, from the contents of their
    /// files where they could be read: as many as the client takes.
    pub fn serve(&mut self, files: Vec<Option<Vec<u8>>>, limit: Option<u64>) -> (r: Vec<u8>)
        requires
            old(self).wf(),
            old(self).messages_served + files@.len() <= u64::MAX,
        ensures
            final(self).wf(),
            r@ == msgpack_write(list_value(served_of(file_views(files@), limit).0)),
            final(self)@ == (NodeView {
                messages_served: (old(self).messages_served + served_of(file_views(files@), limit).0.len()) as u64,
                ..old(self)@
            }),
    {
        let out: Vec<Vec<u8>> = served(files, limit);
        let ghost count = out@.len();
        assert(views(out@).len() == count);
        self.messages_served = self.messages_served + out.len() as u64;
        encode_list(out)
    }
}

/// What is left to do for a client's request.
pub enum GetStep {
    /// This is the answer.
    Answer(Vec<u8>),
    /// The files of messages that the client has go. Those of messages that it
    /// wants are read and served, within the kilobytes that it takes.
    Serve { drop: Vec<String>, read: Vec<String>, limit: Option<Number> },
}

/// The messages of a part of a request.
pub open spec fn selected(s: SelectionView) -> Seq<Seq<u8>> {
    match s {
        SelectionView::Ids(ids) => ids,
        _ => Seq::empty(),
    }
}

/// What becomes of a client's request: its messages are listed where nothing
/// is said of any, and else what it has goes and what it wants is served.
pub open spec fn get_taken(
    before: NodeView,
    after: NodeView,
    step: GetStep,
    dest: Seq<u8>,
    wants: SelectionView,
    haves: SelectionView,
    limit: Option<Number>,
) -> bool {
    if wants is Nothing && haves is Nothing {
        &&& after == before
        &&& step matches GetStep::Answer(bytes) && bytes@ == msgpack_write(
            list_value(listing_of(before.entries, dest)),
        )
    } else {
        let (left, files) = after_haves(before.entries, dest, selected(haves));
        &&& after == (NodeView { entries: left, ..before })
        &&& step is Serve
        &&& text_views(step->drop@) == files
        &&& text_views(step->read@) == wanted_of(left, dest, selected(wants))
        &&& step->limit == limit
    }
}

fn ids_of(s: Selection) -> (r: Vec<Vec<u8>>)
    ensures
        views(r@) == selected(s@),
{
    match s {
        Selection::Ids(ids) => ids,
        _ => {
            let none: Vec<Vec<u8>> = Vec::new();
            assert(views(none@) =~= Seq::empty());
            none
        },
    }
}

impl LxmfPropagationNode {
    /// Takes a client's request for the messages of a destination.
    pub fn take_get(&mut self, request: GetRequest, dest: &[u8]) -> (r: GetStep)
        requires
            old(self).wf(),
        ensures
            final(self).wf(),
            get_taken(old(self)@, final(self)@, r, dest@, request.wants@, request.haves@, request.limit),
    {
        let unsaid: bool = match (&request.wants, &request.haves) {
            (Selection::Nothing, Selection::Nothing) => true,
            _ => false,
        };
        if unsaid {
            return GetStep::Answer(self.answer_listing(dest));
        }
        let haves: Vec<Vec<u8>> = ids_of(request.haves);
        let wants: Vec<Vec<u8>> = ids_of(request.wants);
        let drop: Vec<String> = self.drop_haves(dest, &haves);
        let read: Vec<String> = self.wanted_files(dest, &wants);
        GetStep::Serve { drop, read, limit: request.limit }
    }

    /// Takes a client's request for messages in its wire form: an error where
    /// the client has not identified itself or the request is no list.
    pub fn handle_get(&mut self, data: &[u8], remote: Option<&[u8]>) -> (r: GetStep)
        requires
            old(self).wf(),
        ensures
            final(self).wf(),
            remote is None ==> final(self)@ == old(self)@ && (r matches GetStep::Answer(e) && e@ == error_reply(
                ERROR_NO_IDENTITY,
            )),
            remote is Some && (msgpack_read(data@) is None || crate::fields::array_of(msgpack_read(data@)->0) is None)
                ==> final(self)@ == old(self)@ && (r matches GetStep::Answer(e) && e@ == error_reply(
                ERROR_INVALID_DATA,
            )),
            remote is Some && msgpack_read(data@) is Some ==> (crate::fields::array_of(msgpack_read(data@)->0) matches Some(
                items,
            ) ==> get_taken(
                old(self)@,
                final(self)@,
                r,
                destination_hash_of(remote->0@, LXMF_APP@, seq![DELIVERY_ASPECT@]),
                selection_of(items, 0),
                selection_of(items, 1),
                if items.len() > 2 {
                    crate::fields::number_of(items[2])
                } else {
                    None
                },
            )),
    {
        match self.open_get(data, remote) {
            Ok((request, dest)) => self.take_get(request, dest.as_slice()),
            Err(e) => GetStep::Answer(e),
        }
    }
}

/// The messages of an answer, as [`served_of`] says.
pub fn served(files: Vec<Option<Vec<u8>>>, limit: Option<u64>) -> (r: Vec<Vec<u8>>)
    ensures
        views(r@) == served_of(file_views(files@), limit).0,
        r@.len() <= files@.len(),
{
    let ghost all = file_views(files@);
    let mut out: Vec<Vec<u8>> = Vec::new();
    let mut size: u128 = ANSWER_OVERHEAD as u128;
    let mut i: usize = 0;
    assert(views(out@) =~= Seq::empty());
    while i < files.len()
        invariant
            0 <= i <= files@.len(),
            all == file_views(files@),
            out@.len() <= i,
            views(out@) == served_of(all.take(i as int), limit).0,
            limit is Some ==> size == served_of(all.take(i as int), limit).1,
            size <= u64::MAX,
        decreases files@.len() - i,
    {
        proof {
            assert(all.take(i + 1).drop_last() =~= all.take(i as int));
            assert(all.take(i + 1).last() == crate::octets::opt_view(files@[i as int]));
        }
        if let Some(file) = &files[i] {
            let next: u128 = size + file.len() as u128 + MESSAGE_OVERHEAD as u128;
            let (fits, used): (bool, u128) = match limit {
                Some(most) => (next <= most as u128, next),
                None => (true, 0),
            };
            if fits {
                let keep: usize = if file.len() >= STAMP_SIZE {
                    file.len() - STAMP_SIZE
                } else {
                    0
                };
                let message: Vec<u8> = slice_of(file.as_slice(), 0, keep);
                assert(message@ =~= unstamped(file@));
                let ghost before = out@;
                out.push(message);
                assert(views(out@) =~= views(before).push(message@));
                size = used;
            }
        }
        i += 1;
    }
    assert(all.take(files@.len() as int) =~= all);
    out
}

/// An offer is considered exactly where the node that makes it is identified,
/// is a configured peer where only those may make one, and offers something
/// that can be read. What fails first in this order is the reason.
pub proof fn law_which_offers_are_considered(settings: Settings, identity: Seq<u8>, request: Option<Packed>)
    ensures
        offer_refusal(settings, None, request) == Some(0xf0u8),
        ({
            let hash = destination_hash_of(identity, LXMF_APP@, seq![PROP_ASPECT@]);
            let configured = exists|i: int|
                0 <= i < settings.static_peers@.len() && (#[trigger] settings.static_peers@[i])@ == hash;
            let allowed = !settings.from_static_only || configured;
            let readable = request is Some && offer_of(request->0) is Some;
            let r = offer_refusal(settings, Some(identity), request);
            &&& !allowed ==> r == Some(0xf1u8)
            &&& allowed && !readable ==> r == Some(0xf4u8)
            &&& allowed && readable ==> r is None
        }),
{
    let hash = destination_hash_of(identity, LXMF_APP@, seq![PROP_ASPECT@]);
    let list = views(settings.static_peers@);
    if list.contains(hash) {
        assert(settings.static_peers@[list.index_of(hash)]@ == hash);
    }
    if exists|i: int| 0 <= i < settings.static_peers@.len() && (#[trigger] settings.static_peers@[i])@ == hash {
        let i = choose|i: int|
            0 <= i < settings.static_peers@.len() && (#[trigger] settings.static_peers@[i])@ == hash;
        assert(list[i] == hash);
    }
}

/// Of what is offered, exactly the messages that are not stored are asked for.
pub proof fn law_what_is_not_stored_is_wanted(
    entries: Seq<(Seq<u8>, PropagationEntry)>,
    offered: Seq<Seq<u8>>,
    id: Seq<u8>,
)
    ensures
        offered.filter(not_stored(entries)).contains(id) <==> offered.contains(id) && forall|k: int|
            0 <= k < entries.len() ==> (#[trigger] entries[k]).0 != id,
{
    crate::octets::lemma_filter_holds(offered, not_stored(entries));
}

/// A client is told of every message for it, and of no other, each once.
pub proof fn law_listing_is_complete(entries: Seq<(Seq<u8>, PropagationEntry)>, dest: Seq<u8>, id: Seq<u8>)
    requires
        entries.len() <= usize::MAX,
        crate::id_map::distinct(entries),
    ensures
        listing_of(entries, dest).contains(id) <==> exists|k: int|
            0 <= k < entries.len() && (#[trigger] entries[k]).0 == id && entries[k].1.destination_hash@ == dest,
        listing_of(entries, dest).len() == entries.filter(is_for(dest)).len(),
{
    law_listing_rises(entries, dest);
    let mine = entries.filter(is_for(dest));
    let order = size_order(mine);
    let listed = in_order(mine, order);
    let listing = listing_of(entries, dest);
    crate::octets::lemma_filter_holds(entries, is_for(dest));
    if listing.contains(id) {
        let i = listing.index_of(id);
        assert(listed[i].0 == id);
        let p = order[i] as int;
        assert(order.contains(order[i]));
        assert(0 <= p < mine.len());
        assert(mine.contains(mine[p]));
        let k = entries.index_of(mine[p]);
        assert(entries[k].0 == id && entries[k].1.destination_hash@ == dest);
    }
    if exists|k: int|
        0 <= k < entries.len() && (#[trigger] entries[k]).0 == id && entries[k].1.destination_hash@ == dest {
        let k = choose|k: int|
            0 <= k < entries.len() && (#[trigger] entries[k]).0 == id && entries[k].1.destination_hash@ == dest;
        assert(entries.contains(entries[k]));
        assert(is_for(dest)(entries[k]));
        assert(mine.contains(entries[k]));
        assert(listed.contains(entries[k]));
        let i = listed.index_of(entries[k]);
        assert(listing[i] == id);
    }
}

/// A client that says what it has in two lists has said what it says in one,
/// and a message that it has costs its file: the file of each message that goes
/// is dropped, and no other.
pub proof fn law_what_goes_costs_its_file(
    entries: Seq<(Seq<u8>, PropagationEntry)>,
    dest: Seq<u8>,
    a: Seq<Seq<u8>>,
    b: Seq<Seq<u8>>,
)
    ensures
        after_haves(entries, dest, a + b).0 == after_haves(after_haves(entries, dest, a).0, dest, b).0,
        after_haves(entries, dest, a + b).1 == after_haves(entries, dest, a).1 + after_haves(
            after_haves(entries, dest, a).0,
            dest,
            b,
        ).1,
    decreases b.len(),
{
    if b.len() == 0 {
        assert(a + b =~= a);
        assert(after_haves(entries, dest, a).1 + Seq::<Seq<char>>::empty() =~= after_haves(entries, dest, a).1);
    } else {
        law_what_goes_costs_its_file(entries, dest, a, b.drop_last());
        assert((a + b).drop_last() =~= a + b.drop_last());
        assert((a + b).last() == b.last());
        assert(after_haves(entries, dest, a + b).1 =~= after_haves(entries, dest, a).1 + after_haves(
            after_haves(entries, dest, a).0,
            dest,
            b,
        ).1);
    }
}

/// The file of a message that goes is the one that it is stored in. An id under
/// which nothing is stored, or a message for somebody else, costs no file.
pub proof fn law_file_of_what_goes(entries: Seq<(Seq<u8>, PropagationEntry)>, dest: Seq<u8>, k: int, other: Seq<u8>)
    requires
        crate::id_map::distinct(entries),
        0 <= k < entries.len(),
        forall|i: int| 0 <= i < entries.len() ==> (#[trigger] entries[i]).0 != other,
    ensures
        entries[k].1.destination_hash@ == dest ==> after_haves(entries, dest, seq![entries[k].0]).1
            == seq![entries[k].1.filepath@],
        entries[k].1.destination_hash@ != dest ==> after_haves(entries, dest, seq![entries[k].0]).1.len() == 0,
        after_haves(entries, dest, seq![other]).1.len() == 0,
{
    let one = seq![entries[k].0];
    assert(one.drop_last() =~= Seq::empty());
    assert(after_haves(entries, dest, one.drop_last()) == (entries, Seq::<Seq<char>>::empty()));
    assert(seq![other].drop_last() =~= Seq::empty());
    assert(after_haves(entries, dest, seq![other].drop_last()) == (entries, Seq::<Seq<char>>::empty()));
    crate::id_map::law_value_is_found(entries, k);
    if entries[k].1.destination_hash@ == dest {
        assert(after_haves(entries, dest, one).1 =~= seq![entries[k].1.filepath@]);
    }
}

/// Without a limit every file that could be read is sent, in order, each
/// without the 32 bytes at its end. The answer takes up 24 bytes, and 16 more
/// for each file besides its own.
pub proof fn law_everything_is_served_without_limit(
    a: Seq<Option<Seq<u8>>>,
    b: Seq<Option<Seq<u8>>>,
    file: Seq<u8>,
)
    ensures
        served_of(a + b, None).0 == served_of(a, None).0 + served_of(b, None).0,
        served_of(a + b, None).1 + 24 == served_of(a, None).1 + served_of(b, None).1,
        file.len() >= 32 ==> served_of(seq![Some(file)], None).0 == seq![file.take(file.len() - 32)],
        file.len() < 32 ==> served_of(seq![Some(file)], None).0 == seq![Seq::<u8>::empty()],
        served_of(seq![Some(file)], None).1 == 24 + file.len() + 16,
        served_of(seq![None], None).0.len() == 0,
        served_of(seq![None], None).1 == 24,
        served_of(Seq::empty(), None).0.len() == 0,
        served_of(Seq::empty(), None).1 == 24,
    decreases b.len(),
{
    let one = seq![Some(file)];
    let none = seq![None::<Seq<u8>>];
    assert(one.drop_last() =~= Seq::empty());
    assert(none.drop_last() =~= Seq::empty());
    let start = served_of(Seq::empty(), None);
    assert(start.0 =~= Seq::empty());
    assert(served_of(one.drop_last(), None) == start);
    assert(served_of(none.drop_last(), None) == start);
    assert(served_of(one, None).0 =~= seq![unstamped(file)]);
    if b.len() == 0 {
        assert(a + b =~= a);
        assert(served_of(a, None).0 + served_of(b, None).0 =~= served_of(a, None).0);
    } else {
        law_everything_is_served_without_limit(a, b.drop_last(), file);
        assert((a + b).drop_last() =~= a + b.drop_last());
        assert((a + b).last() == b.last());
        assert(served_of(a + b, None).0 =~= served_of(a, None).0 + served_of(b, None).0);
    }
}

/// A limit leaves out nothing but what would go beyond it: a further file is
/// sent exactly where it could be read and the answer with it takes up no more
/// than the limit, and one that is left out takes up nothing.
pub proof fn law_file_is_served_where_it_fits(files: Seq<Option<Seq<u8>>>, file: Seq<u8>, limit: u64)
    ensures
        ({
            let before = served_of(files, Some(limit));
            let after = served_of(files.push(Some(file)), Some(limit));
            &&& before.1 + file.len() + 16 <= limit ==> after.0 == before.0 + served_of(seq![Some(file)], None).0
                && after.1 == before.1 + file.len() + 16
            &&& before.1 + file.len() + 16 > limit ==> after == before
            &&& served_of(files.push(None), Some(limit)) == before
        }),
{
    assert(files.push(Some(file)).drop_last() =~= files);
    assert(files.push(None).drop_last() =~= files);
    law_everything_is_served_without_limit(Seq::empty(), Seq::empty(), file);
    let before = served_of(files, Some(limit));
    assert(served_of(seq![Some(file)], None).0 =~= seq![unstamped(file)]) by {
        assert(seq![Some(file)].drop_last() =~= Seq::empty());
    }
    if before.1 + file.len() + 16 <= limit {
        assert(served_of(files.push(Some(file)), Some(limit)).0 =~= before.0 + seq![unstamped(file)]);
    }
}

/// A client is not sent what it says it has, and is sent the file of every
/// other message for it that it wants. The messages that it has are stored no
/// longer, and those of others still are.
pub proof fn law_client_is_sent_what_it_lacks(
    before: NodeView,
    after: NodeView,
    step: GetStep,
    dest: Seq<u8>,
    wants: Seq<Seq<u8>>,
    haves: Seq<Seq<u8>>,
    limit: Option<Number>,
    k: int,
)
    requires
        get_taken(before, after, step, dest, SelectionView::Ids(wants), SelectionView::Ids(haves), limit),
        crate::id_map::distinct(before.entries),
        0 <= k < before.entries.len(),
    ensures
        step is Serve,
        step->limit == limit,
        after.peers == before.peers,
        ({
            let e = before.entries[k];
            let own = e.1.destination_hash@ == dest;
            &&& own && haves.contains(e.0) ==> !after.entries.contains(e)
            &&& !(own && haves.contains(e.0)) ==> after.entries.contains(e)
            &&& own && wants.contains(e.0) && !haves.contains(e.0) ==> text_views(step->read@).contains(e.1.filepath@)
        }),
{
    let e = before.entries[k];
    let left = after_haves(before.entries, dest, haves).0;
    law_only_own_messages_go(before.entries, dest, haves, e);
    assert(before.entries.contains(e));
    if e.1.destination_hash@ == dest && wants.contains(e.0) && !haves.contains(e.0) {
        let i = left.index_of(e);
        crate::id_map::law_value_is_found(left, i);
        assert(holds_for(left, dest, e.0));
        lemma_wanted_is_read(left, dest, wants, e.0);
    }
}

proof fn lemma_wanted_is_read(
    entries: Seq<(Seq<u8>, PropagationEntry)>,
    dest: Seq<u8>,
    ids: Seq<Seq<u8>>,
    id: Seq<u8>,
)
    requires
        ids.contains(id),
        holds_for(entries, dest, id),
    ensures
        wanted_of(entries, dest, ids).contains(value_of(entries, id).filepath@),
    decreases ids.len(),
{
    let rest = ids.drop_last();
    let before = wanted_of(entries, dest, rest);
    let after = wanted_of(entries, dest, ids);
    if id == ids.last() {
        assert(after[before.len() as int] == value_of(entries, id).filepath@);
    } else {
        let k = ids.index_of(id);
        assert(rest[k] == id);
        lemma_wanted_is_read(entries, dest, rest, id);
        let i = before.index_of(value_of(entries, id).filepath@);
        assert(after[i] == value_of(entries, id).filepath@);
    }
}

/// A client is handed the files of the messages that it wants and that are for
/// it, each of them, and those of nobody else.
pub proof fn law_client_gets_every_file_it_wants(
    node: &LxmfPropagationNode,
    dest: &[u8],
    ids: &Vec<Vec<u8>>,
    files: Vec<String>,
    k: int,
    file: Seq<char>,
)
    requires
        call_ensures(LxmfPropagationNode::wanted_files, (node, dest, ids), files),
        crate::id_map::distinct(node@.entries),
        0 <= k < node@.entries.len(),
    ensures
        views(ids@).contains(node@.entries[k].0) && node@.entries[k].1.destination_hash@ == dest@ ==> text_views(
            files@,
        ).contains(node@.entries[k].1.filepath@),
        files@.len() <= ids@.len(),
        text_views(files@).contains(file) ==> exists|j: int|
            0 <= j < node@.entries.len() && (#[trigger] node@.entries[j]).1.destination_hash@ == dest@
                && node@.entries[j].1.filepath@ == file && views(ids@).contains(node@.entries[j].0),
{
    let e = node@.entries[k];
    crate::id_map::law_value_is_found(node@.entries, k);
    if views(ids@).contains(e.0) && e.1.destination_hash@ == dest@ {
        lemma_wanted_is_read(node@.entries, dest@, views(ids@), e.0);
    }
    lemma_read_is_wanted(node@.entries, dest@, views(ids@), file);
    assert(text_views(files@).len() == files@.len());
    assert(views(ids@).len() == ids@.len());
}

proof fn lemma_read_is_wanted(
    entries: Seq<(Seq<u8>, PropagationEntry)>,
    dest: Seq<u8>,
    ids: Seq<Seq<u8>>,
    file: Seq<char>,
)
    ensures
        wanted_of(entries, dest, ids).len() <= ids.len(),
        wanted_of(entries, dest, ids).contains(file) ==> exists|j: int|
            0 <= j < entries.len() && (#[trigger] entries[j]).1.destination_hash@ == dest && entries[j].1.filepath@
                == file && ids.contains(entries[j].0),
    decreases ids.len(),
{
    if ids.len() > 0 {
        let rest = ids.drop_last();
        let before = wanted_of(entries, dest, rest);
        let after = wanted_of(entries, dest, ids);
        lemma_read_is_wanted(entries, dest, rest, file);
        assert forall|x: Seq<u8>| rest.contains(x) implies #[trigger] ids.contains(x) by {
            assert(ids[rest.index_of(x)] == x);
        }
        assert(ids[ids.len() - 1] == ids.last());
        if after.contains(file) {
            if before.contains(file) {
                let j = choose|j: int|
                    0 <= j < entries.len() && (#[trigger] entries[j]).1.destination_hash@ == dest
                        && entries[j].1.filepath@ == file && rest.contains(entries[j].0);
                assert(ids.contains(entries[j].0));
            } else {
                let i = after.index_of(file);
                if i < before.len() {
                    assert(before[i] == file);
                }
                assert(holds_for(entries, dest, ids.last()));
                let j = choose|j: int| 0 <= j < entries.len() && (#[trigger] entries[j]).0 == ids.last();
                assert(entries[j].1.filepath@ == file);
            }
        }
    }
}

/// An offer that comes with a key that is not good is refused by its number, and
/// otherwise the messages that are not stored are asked for.
pub proof fn law_offer_is_answered(
    node: &LxmfPropagationNode,
    request: &OfferRequest,
    key_is_valid: bool,
    r: Vec<u8>,
    lacking: spec_fn(Seq<u8>) -> bool,
)
    requires
        call_ensures(LxmfPropagationNode::answer_offer, (node, request, key_is_valid), r),
        forall|id: Seq<u8>| #[trigger]
            lacking(id) <==> forall|k: int| 0 <= k < node@.entries.len() ==> (#[trigger] node@.entries[k]).0 != id,
    ensures
        !key_is_valid ==> r@ == msgpack_write(Packed::UInt(0xf3)),
        key_is_valid && views(request.ids@).filter(lacking).len() == 0 ==> r@ == msgpack_write(Packed::Boolean(false)),
        key_is_valid && request.ids@.len() > 0 && views(request.ids@).filter(lacking).len() == request.ids@.len()
            ==> r@ == msgpack_write(Packed::Boolean(true)),
        key_is_valid && 0 < views(request.ids@).filter(lacking).len() < request.ids@.len() ==> r@ == msgpack_write(
            list_value(views(request.ids@).filter(lacking)),
        ),
{
    let ids = views(request.ids@);
    assert forall|id: Seq<u8>| #[trigger] lacking(id) <==> not_stored(node@.entries)(id) by {}
    crate::octets::lemma_filter_agree(ids, lacking, not_stored(node@.entries));
}

/// A client that does not say who it is, or that sends what cannot be read, gets
/// nothing, and nothing changes.
pub proof fn law_unreadable_requests_change_nothing(
    node: &mut LxmfPropagationNode,
    data: &[u8],
    remote: Option<&[u8]>,
    r: GetStep,
)
    requires
        call_ensures(LxmfPropagationNode::handle_get, (node, data, remote), r),
        remote is None || !(msgpack_read(data@) matches Some(p) && p is Array),
    ensures
        final(node)@ == old(node)@,
        r is Answer,
        remote is None ==> r->Answer_0@ == msgpack_write(Packed::UInt(0xf0)),
        remote is Some ==> r->Answer_0@ == msgpack_write(Packed::UInt(0xf4)),
{
}

/// A client is sent to the messages for the hash that its own identity has for
/// them, and to no other.
pub proof fn law_client_reads_its_own_messages(
    node: &LxmfPropagationNode,
    data: &[u8],
    remote: Option<&[u8]>,
    r: Result<(GetRequest, Vec<u8>), Vec<u8>>,
)
    requires
        call_ensures(LxmfPropagationNode::open_get, (node, data, remote), r),
    ensures
        r is Ok <==> remote is Some && (msgpack_read(data@) matches Some(p) && p is Array),
        r is Ok ==> r->Ok_0.1@ == destination_hash_of(remote->0@, "lxmf"@, seq!["delivery"@]),
        remote is None ==> r->Err_0@ == msgpack_write(Packed::UInt(0xf0)),
        remote is Some && r is Err ==> r->Err_0@ == msgpack_write(Packed::UInt(0xf4)),
{
}

/// An offer is bound to the identity of this node and then to that of the one
/// that makes it, and one that is refused is answered with the number of the
/// reason.
pub proof fn law_offer_is_bound_to_both(
    node: &LxmfPropagationNode,
    data: &[u8],
    remote: Option<&[u8]>,
    r: Result<OfferRequest, Vec<u8>>,
)
    requires
        call_ensures(LxmfPropagationNode::open_offer, (node, data, remote), r),
    ensures
        remote is None ==> r is Err && r->Err_0@ == msgpack_write(Packed::UInt(0xf0)),
        r is Ok ==> r->Ok_0.material@ == node.settings.identity_hash@ + remote->0@,
        r is Ok ==> offer_of(msgpack_read(data@)->0) == Some((r->Ok_0.peering_key@, views(r->Ok_0.ids@))),
        remote is Some && !node.settings.from_static_only ==> (r is Ok <==> (msgpack_read(data@) matches Some(p)
            && offer_of(p) is Some)),
{
    if remote is Some {
        law_which_offers_are_considered(node.settings, remote->0@, msgpack_read(data@));
    }
}

} // verus!
