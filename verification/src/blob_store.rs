//! The index of the blobs that a node keeps: what is there, since when, and
//! how much room it takes up.
//!
//! A blob is a file of its own, named by the destination that it is for and by
//! its id. What leaves the index is handed out, so that its file can go too.
use vstd::prelude::*;
use rand::RngCore;
use crate::config::{join_path, path_in};
use crate::id_map::{distinct, has_key, keys_of, not_among, put, value_of, without, without_all, IdMap};
use crate::octets::{copied, lemma_filter_ends, lemma_filter_holds, lemma_filter_step, same_bytes, views};
use crate::order::{sorted_positions, stable_order};
use crate::text::{decimal, decimal_text, decode_hex, hex, hex_bytes, hex_text};

verus! {

/// How long a blob is kept.
pub const BLOB_TTL: u64 = 2_592_000_000_000_000;

/// How often blobs that are too old are looked for.
pub const EVICT_CHECK_INTERVAL: u64 = 3_600_000_000_000;

/// The bytes of a message id.
pub const MESSAGE_ID_LEN: usize = 16;

/// What is known of a blob.
pub struct BlobMeta {
    /// The channel or destination that the blob is for.
    pub destination_hash: Vec<u8>,
    /// When it was received; nothing stands for not known.
    pub received: u64,
    /// Its bytes.
    pub size: usize,
}

/// A blob by its destination and its id.
pub struct BlobName {
    pub destination_hash: Vec<u8>,
    pub message_id: Vec<u8>,
}

/// The contents of a list of names of blobs.
pub open spec fn name_views(list: Seq<BlobName>) -> Seq<(Seq<u8>, Seq<u8>)> {
    list.map_values(|n: BlobName| (n.destination_hash@, n.message_id@))
}

/// The names of the blobs of a list.
pub open spec fn names_of(blobs: Seq<(Seq<u8>, BlobMeta)>) -> Seq<(Seq<u8>, Seq<u8>)> {
    blobs.map_values(|b: (Seq<u8>, BlobMeta)| (b.1.destination_hash@, b.0))
}

/// The bytes of all the blobs of a list.
pub open spec fn bytes_of(blobs: Seq<(Seq<u8>, BlobMeta)>) -> nat
    decreases blobs.len(),
{
    if blobs.len() == 0 {
        0
    } else {
        bytes_of(blobs.drop_last()) + blobs.last().1.size as nat
    }
}

/// What is left of `used` bytes once `freed` are free.
pub open spec fn freed(used: u64, freed: nat) -> u64 {
    if used >= freed {
        (used - freed) as u64
    } else {
        0
    }
}

/// The index of a node's blobs.
pub struct BlobStore {
    /// The blobs by their ids.
    pub index: IdMap<BlobMeta>,
    pub storage_limit_bytes: u64,
    pub used_bytes: u64,
    /// When blobs that are too old were last looked for.
    pub last_eviction: u64,
}

/// What a [`BlobStore`] holds.
pub struct StoreView {
    pub blobs: Seq<(Seq<u8>, BlobMeta)>,
    pub limit: u64,
    pub used: u64,
    pub last_eviction: u64,
}

/// A store without some of its blobs.
pub open spec fn without_blobs(s: StoreView, gone: Seq<(Seq<u8>, BlobMeta)>) -> StoreView {
    StoreView { blobs: without_all(s.blobs, keys_of(gone)), used: freed(s.used, bytes_of(gone)), ..s }
}

/// The test that a blob is older than `ttl`; one of unknown age is not.
pub open spec fn is_older(now: u64, ttl: u64) -> spec_fn((Seq<u8>, BlobMeta)) -> bool {
    |b: (Seq<u8>, BlobMeta)| b.1.received > 0 && b.1.received + ttl < now
}

/// The test that a blob is for a destination.
pub open spec fn is_for_channel(channel: Seq<u8>) -> spec_fn((Seq<u8>, BlobMeta)) -> bool {
    |b: (Seq<u8>, BlobMeta)| b.1.destination_hash@ == channel
}

/// The blobs of a list in another order.
pub open spec fn blobs_in_order(blobs: Seq<(Seq<u8>, BlobMeta)>, order: Seq<usize>) -> Seq<(Seq<u8>, BlobMeta)> {
    order.map_values(|i: usize| blobs[i as int])
}

/// By what blobs are ordered: when they were received, those of unknown age
/// behind all others.
pub open spec fn age_key(b: BlobMeta) -> u128 {
    if b.received == 0 {
        0x1_0000_0000_0000_0000
    } else {
        b.received as u128
    }
}

/// The keys of the blobs of a list.
pub open spec fn age_keys(blobs: Seq<(Seq<u8>, BlobMeta)>) -> Seq<u128> {
    blobs.map_values(|b: (Seq<u8>, BlobMeta)| age_key(b.1))
}

/// The places of blobs, oldest first.
pub open spec fn blob_age_order(blobs: Seq<(Seq<u8>, BlobMeta)>) -> Seq<usize> {
    choose|order: Seq<usize>| stable_order(age_keys(blobs), order)
}

/// Whether the first `n` of `by_age` are as few as it takes for `needed` bytes
/// to fit, or all that there are.
pub open spec fn enough_room(
    by_age: Seq<(Seq<u8>, BlobMeta)>,
    used: u64,
    needed: nat,
    limit: nat,
    n: int,
) -> bool {
    &&& 0 <= n <= by_age.len()
    &&& n == by_age.len() || freed(used, bytes_of(by_age.take(n))) + needed <= limit
    &&& forall|k: int| 0 <= k < n ==> freed(used, #[trigger] bytes_of(by_age.take(k))) + needed > limit
}

/// There is one number of blobs that it takes.
pub proof fn law_room_is_unique(
    by_age: Seq<(Seq<u8>, BlobMeta)>,
    used: u64,
    needed: nat,
    limit: nat,
    n: int,
    m: int,
)
    requires
        enough_room(by_age, used, needed, limit, n),
        enough_room(by_age, used, needed, limit, m),
    ensures
        n == m,
{
    if n < m {
        assert(freed(used, bytes_of(by_age.take(n))) + needed > limit);
    } else if m < n {
        assert(freed(used, bytes_of(by_age.take(m))) + needed > limit);
    }
}

/// There is a number of blobs that it takes, `k` or more where fewer do not do.
proof fn lemma_room_from(by_age: Seq<(Seq<u8>, BlobMeta)>, used: u64, needed: nat, limit: nat, k: int)
    requires
        0 <= k <= by_age.len(),
        forall|j: int| 0 <= j < k ==> freed(used, #[trigger] bytes_of(by_age.take(j))) + needed > limit,
    ensures
        exists|n: int| enough_room(by_age, used, needed, limit, n),
    decreases by_age.len() - k,
{
    if k == by_age.len() || freed(used, bytes_of(by_age.take(k))) + needed <= limit {
        assert(enough_room(by_age, used, needed, limit, k));
    } else {
        lemma_room_from(by_age, used, needed, limit, k + 1);
    }
}

/// There is a number of blobs that it takes.
pub proof fn law_room_exists(by_age: Seq<(Seq<u8>, BlobMeta)>, used: u64, needed: nat, limit: nat)
    ensures
        exists|n: int| enough_room(by_age, used, needed, limit, n),
{
    lemma_room_from(by_age, used, needed, limit, 0);
}

/// The blobs that go for `needed` bytes to fit, oldest first: as few of the
/// oldest as it takes.
pub open spec fn in_the_way(s: StoreView, needed: nat) -> Seq<(Seq<u8>, BlobMeta)> {
    let by_age = blobs_in_order(s.blobs, blob_age_order(s.blobs));
    by_age.take(choose|n: int| enough_room(by_age, s.used, needed, s.limit as nat, n))
}

/// Nothing goes where there is room.
proof fn lemma_nothing_in_the_way(s: StoreView, needed: nat)
    requires
        s.used + needed <= s.limit,
    ensures
        in_the_way(s, needed) == Seq::<(Seq<u8>, BlobMeta)>::empty(),
        without_blobs(s, in_the_way(s, needed)) == s,
{
    let by_age = blobs_in_order(s.blobs, blob_age_order(s.blobs));
    assert(by_age.take(0) =~= Seq::empty());
    assert(enough_room(by_age, s.used, needed, s.limit as nat, 0));
    law_room_is_unique(
        by_age,
        s.used,
        needed,
        s.limit as nat,
        0,
        choose|m: int| enough_room(by_age, s.used, needed, s.limit as nat, m),
    );
    assert(keys_of(in_the_way(s, needed)) =~= Seq::<Seq<u8>>::empty());
    crate::octets::lemma_filter_all(s.blobs, not_among::<BlobMeta>(Seq::empty()));
}

/// The blobs that are too old, where it is time to look for them.
pub open spec fn due_for_age(s: StoreView, now: u64) -> Seq<(Seq<u8>, BlobMeta)> {
    if now - s.last_eviction > EVICT_CHECK_INTERVAL {
        s.blobs.filter(is_older(now, BLOB_TTL))
    } else {
        Seq::empty()
    }
}

/// A store after blobs that are too old went, where it was time to look.
pub open spec fn aged(s: StoreView, now: u64) -> StoreView {
    if now - s.last_eviction > EVICT_CHECK_INTERVAL {
        StoreView { last_eviction: now, ..without_blobs(s, due_for_age(s, now)) }
    } else {
        s
    }
}

/// A blob of unknown age does not go for its age.
pub proof fn law_unknown_age_is_kept(s: StoreView, now: u64, i: int)
    requires
        distinct(s.blobs),
        0 <= i < s.blobs.len(),
        s.blobs[i].1.received == 0,
    ensures
        aged(s, now).blobs.contains(s.blobs[i]),
{
    let b = s.blobs[i];
    let gone = due_for_age(s, now);
    lemma_filter_holds(s.blobs, is_older(now, BLOB_TTL));
    assert(!keys_of(gone).contains(b.0)) by {
        if keys_of(gone).contains(b.0) {
            let k = keys_of(gone).index_of(b.0);
            assert(gone.contains(gone[k]));
            let j = s.blobs.index_of(gone[k]);
            assert(s.blobs[j].0 == s.blobs[i].0);
        }
    }
    lemma_filter_holds(s.blobs, not_among::<BlobMeta>(keys_of(gone)));
    assert(s.blobs.contains(b));
}

/// A store after room was made for `needed` bytes.
pub open spec fn with_room(s: StoreView, needed: nat, now: u64) -> StoreView {
    without_blobs(aged(s, now), in_the_way(aged(s, now), needed))
}

/// The text of the error for a blob that does not fit.
pub open spec fn full_text(used: u64, limit: u64) -> Seq<char> {
    "Storage limit reached ("@ + decimal_text(used as nat) + "/"@ + decimal_text(limit as nat) + " bytes)"@
}

/// The blobs that went for a new one, and whether it fits now.
pub struct Room {
    pub evicted: Vec<BlobName>,
    /// The error where it does not fit.
    pub refused: Option<String>,
}

/// `rand::rngs::OsRng::try_fill_bytes`: 16 bytes of the system's randomness,
/// or nothing where there is none to be had.
#[verifier::external_body]
fn random_id() -> (r: Option<Vec<u8>>)
    ensures
        r matches Some(id) ==> id@.len() == MESSAGE_ID_LEN,
{
    let mut id = vec![0u8; 16];
    rand::rngs::OsRng.try_fill_bytes(&mut id).ok().map(|_| id)
}

/// A new message id: 16 random bytes.
pub fn new_message_id() -> (r: Option<Vec<u8>>)
    ensures
        r matches Some(id) ==> id@.len() == MESSAGE_ID_LEN,
{
    random_id()
}

/// The file of a blob.
pub open spec fn blob_path_of(storage_dir: Seq<char>, destination_hash: Seq<u8>, message_id: Seq<u8>) -> Seq<char> {
    path_in(path_in(storage_dir, hex_text(destination_hash)), hex_text(message_id))
}

/// The file of a blob: named by its id, in a directory named by its
/// destination.
pub fn blob_path(storage_dir: &str, destination_hash: &[u8], message_id: &[u8]) -> (r: String)
    ensures
        r@ == blob_path_of(storage_dir@, destination_hash@, message_id@),
{
    let dir: String = join_path(storage_dir, hex(destination_hash).as_str());
    join_path(dir.as_str(), hex(message_id).as_str())
}

impl BlobStore {
    /// What the store holds.
    pub open spec fn view(&self) -> StoreView {
        StoreView {
            blobs: self.index@,
            limit: self.storage_limit_bytes,
            used: self.used_bytes,
            last_eviction: self.last_eviction,
        }
    }

    /// What holds of every store that this module hands out.
    pub open spec fn wf(&self) -> bool {
        self.index.wf()
    }

    /// A store without blobs.
    pub fn open(storage_limit_bytes: u64) -> (r: Self)
        ensures
            r.wf(),
            r@ == (StoreView { blobs: Seq::empty(), limit: storage_limit_bytes, used: 0, last_eviction: 0 }),
    {
        BlobStore { index: IdMap::new(), storage_limit_bytes, used_bytes: 0, last_eviction: 0 }
    }

    /// Takes a file into the index that was found in the storage directory:
    /// both its own name and that of its directory must be hexadecimal. Says
    /// whether it was taken in.
    pub fn index_blob(&mut self, dir_name: &str, file_name: &str, size: usize, received: u64) -> (r: bool)
        requires
            old(self).wf(),
            old(self).used_bytes + size <= u64::MAX,
        ensures
            final(self).wf(),
            r == (hex_bytes(dir_name@) is Some && hex_bytes(file_name@) is Some),
            !r ==> final(self)@ == old(self)@,
            r ==> blob_added(
                old(self)@,
                final(self)@,
                hex_bytes(file_name@)->0,
                hex_bytes(dir_name@)->0,
                received,
                size,
            ),
    {
        match (decode_hex(dir_name), decode_hex(file_name)) {
            (Some(destination_hash), Some(message_id)) => {
                self.record(message_id, destination_hash, size, received);
                true
            },
            _ => false,
        }
    }

    /// Takes a blob into the index whose file has been written.
    pub fn record(&mut self, message_id: Vec<u8>, destination_hash: Vec<u8>, size: usize, received: u64)
        requires
            old(self).wf(),
            old(self).used_bytes + size <= u64::MAX,
        ensures
            final(self).wf(),
            blob_added(old(self)@, final(self)@, message_id@, destination_hash@, received, size),
    {
        let meta: BlobMeta = BlobMeta { destination_hash, received, size };
        assert(meta_is(meta, destination_hash@, received, size));
        self.index.insert(message_id, meta);
        self.used_bytes = self.used_bytes + size as u64;
    }

    /// The destination of a blob, with which its file is found.
    pub fn destination_of(&self, message_id: &[u8]) -> (r: Option<Vec<u8>>)
        requires
            self.wf(),
        ensures
            r is Some <==> has_key(self@.blobs, message_id@),
            r matches Some(d) ==> d@ == value_of(self@.blobs, message_id@).destination_hash@,
    {
        match self.index.get(message_id) {
            Some(m) => Some(copied(m.destination_hash.as_slice())),
            None => None,
        }
    }

    /// Whether there is a blob with this id.
    pub fn contains(&self, message_id: &[u8]) -> (r: bool)
        requires
            self.wf(),
        ensures
            r == has_key(self@.blobs, message_id@),
    {
        self.index.contains(message_id)
    }

    /// The ids of all blobs.
    pub fn all_message_ids(&self) -> (r: Vec<Vec<u8>>)
        ensures
            views(r@) == keys_of(self@.blobs),
    {
        self.index.ids()
    }

    /// The ids of the blobs of a channel.
    pub fn message_ids_for_channel(&self, channel_hash: &[u8]) -> (r: Vec<Vec<u8>>)
        ensures
            views(r@) == keys_of(self@.blobs.filter(is_for_channel(channel_hash@))),
    {
        let ghost all = self@.blobs;
        let ghost keep = is_for_channel(channel_hash@);
        let pairs: Vec<(&Vec<u8>, &BlobMeta)> = self.index.pairs();
        let mut out: Vec<Vec<u8>> = Vec::new();
        let mut i: usize = 0;
        proof {
            lemma_filter_ends(all, keep);
            assert(views(out@) =~= keys_of(all.take(0).filter(keep)));
        }
        while i < pairs.len()
            invariant
                0 <= i <= pairs@.len(),
                keep == is_for_channel(channel_hash@),
                pairs@.len() == all.len(),
                forall|j: int|
                    0 <= j < pairs@.len() ==> (#[trigger] pairs@[j]).0@ == all[j].0 && *pairs@[j].1 == all[j].1,
                views(out@) == keys_of(all.take(i as int).filter(keep)),
            decreases pairs@.len() - i,
        {
            let ghost found = all.take(i as int).filter(keep);
            proof {
                lemma_filter_step(all, keep, i as int);
            }
            if same_bytes(pairs[i].1.destination_hash.as_slice(), channel_hash) {
                let ghost was = views(out@);
                let id: Vec<u8> = copied(pairs[i].0.as_slice());
                out.push(id);
                assert(views(out@) =~= was.push(id@));
                assert(keys_of(found.push(all[i as int])) =~= keys_of(found).push(all[i as int].0));
            }
            i += 1;
        }
        proof {
            lemma_filter_ends(all, keep);
        }
        out
    }

    /// Takes a blob out of the index. Returns its name, where it was there.
    pub fn delete(&mut self, message_id: &[u8]) -> (r: Option<BlobName>)
        requires
            old(self).wf(),
        ensures
            final(self).wf(),
            r is Some <==> has_key(old(self)@.blobs, message_id@),
            r is None ==> final(self)@ == old(self)@,
            r matches Some(n) ==> n.message_id@ == message_id@ && n.destination_hash@ == value_of(
                old(self)@.blobs,
                message_id@,
            ).destination_hash@ && final(self)@ == (StoreView {
                blobs: without(old(self)@.blobs, message_id@),
                used: freed(old(self).used_bytes, value_of(old(self)@.blobs, message_id@).size as nat),
                ..old(self)@
            }),
    {
        let ghost before = self@;
        proof {
            self.index.lemma_distinct();
        }
        match self.index.remove(message_id) {
            Some(m) => {
                proof {
                    crate::id_map::lemma_value_of(before.blobs, message_id@, m);
                }
                self.used_bytes = if self.used_bytes >= m.size as u64 {
                    self.used_bytes - m.size as u64
                } else {
                    0
                };
                Some(BlobName { destination_hash: m.destination_hash, message_id: copied(message_id) })
            },
            None => {
                proof {
                    crate::octets::lemma_filter_all(before.blobs, crate::id_map::not_under::<BlobMeta>(message_id@));
                }
                None
            },
        }
    }
}

/// Whether this is known of a blob.
pub open spec fn meta_is(m: BlobMeta, destination_hash: Seq<u8>, received: u64, size: usize) -> bool {
    m.destination_hash@ == destination_hash && m.received == received && m.size == size
}

/// Whether a store has come to hold a blob under `id`, in the place of the one
/// that was there or as a new one, with its bytes counted.
pub open spec fn blob_added(
    before: StoreView,
    after: StoreView,
    id: Seq<u8>,
    destination_hash: Seq<u8>,
    received: u64,
    size: usize,
) -> bool {
    &&& after == (StoreView { blobs: after.blobs, used: (before.used + size) as u64, ..before })
    &&& exists|m: BlobMeta|
        #![trigger meta_is(m, destination_hash, received, size)]
        {
            &&& meta_is(m, destination_hash, received, size)
            &&& after.blobs == put(before.blobs, id, m)
        }
}

impl BlobStore {
    /// Drops the blobs that are older than `ttl`. Returns their names.
    pub fn evict_older_than(&mut self, now: u64, ttl: u64) -> (r: Vec<BlobName>)
        requires
            old(self).wf(),
        ensures
            final(self).wf(),
            name_views(r@) == names_of(old(self)@.blobs.filter(is_older(now, ttl))),
            final(self)@ == without_blobs(old(self)@, old(self)@.blobs.filter(is_older(now, ttl))),
    {
        let ghost all = self@.blobs;
        let ghost gone = is_older(now, ttl);
        let mut names: Vec<BlobName> = Vec::new();
        let mut ids: Vec<Vec<u8>> = Vec::new();
        let mut used: u64 = self.used_bytes;
        {
            let pairs: Vec<(&Vec<u8>, &BlobMeta)> = self.index.pairs();
            let mut i: usize = 0;
            proof {
                lemma_filter_ends(all, gone);
                assert(views(ids@) =~= keys_of(all.take(0).filter(gone)));
                assert(name_views(names@) =~= names_of(all.take(0).filter(gone)));
            }
            while i < pairs.len()
                invariant
                    0 <= i <= pairs@.len(),
                    gone == is_older(now, ttl),
                    pairs@.len() == all.len(),
                    forall|j: int|
                        0 <= j < pairs@.len() ==> (#[trigger] pairs@[j]).0@ == all[j].0 && *pairs@[j].1 == all[j].1,
                    views(ids@) == keys_of(all.take(i as int).filter(gone)),
                    name_views(names@) == names_of(all.take(i as int).filter(gone)),
                    used == freed(old(self).used_bytes, bytes_of(all.take(i as int).filter(gone))),
                decreases pairs@.len() - i,
            {
                proof {
                    lemma_filter_step(all, gone, i as int);
                }
                let ghost found = all.take(i as int).filter(gone);
                let meta: &BlobMeta = pairs[i].1;
                if meta.received > 0 && meta.received < now && now - meta.received > ttl {
                    let ghost ids0 = views(ids@);
                    let ghost names0 = name_views(names@);
                    let id: Vec<u8> = copied(pairs[i].0.as_slice());
                    let name: BlobName = BlobName {
                        destination_hash: copied(meta.destination_hash.as_slice()),
                        message_id: copied(pairs[i].0.as_slice()),
                    };
                    ids.push(id);
                    names.push(name);
                    proof {
                        assert(gone(all[i as int]));
                        assert(views(ids@) =~= ids0.push(id@));
                        assert(name_views(names@) =~= names0.push((name.destination_hash@, name.message_id@)));
                        assert(keys_of(found.push(all[i as int])) =~= keys_of(found).push(all[i as int].0));
                        assert(names_of(found.push(all[i as int])) =~= names_of(found).push(
                            (all[i as int].1.destination_hash@, all[i as int].0),
                        ));
                        assert(found.push(all[i as int]).drop_last() =~= found);
                    }
                    used = if used >= meta.size as u64 {
                        used - meta.size as u64
                    } else {
                        0
                    };
                } else {
                    assert(!gone(all[i as int]));
                }
                i += 1;
            }
        }
        proof {
            lemma_filter_ends(all, gone);
        }
        self.index.remove_all(&ids);
        self.used_bytes = used;
        names
    }

    /// Drops as few of the oldest blobs as it takes for `needed` bytes to fit.
    /// Returns their names.
    fn evict_to_fit(&mut self, needed: u64) -> (r: Vec<BlobName>)
        requires
            old(self).wf(),
        ensures
            final(self).wf(),
            name_views(r@) == names_of(in_the_way(old(self)@, needed as nat)),
            final(self)@ == without_blobs(old(self)@, in_the_way(old(self)@, needed as nat)),
    {
        let ghost s = self@;
        let ghost all = s.blobs;
        let limit: u128 = self.storage_limit_bytes as u128;
        let mut names: Vec<BlobName> = Vec::new();
        if self.used_bytes as u128 + needed as u128 <= limit {
            proof {
                lemma_nothing_in_the_way(s, needed as nat);
                assert(name_views(names@) =~= names_of(in_the_way(s, needed as nat)));
            }
            return names;
        }
        let mut ids: Vec<Vec<u8>> = Vec::new();
        let mut used: u64 = self.used_bytes;
        let mut n: usize = 0;
        let ghost order0: Seq<usize>;
        {
            let pairs: Vec<(&Vec<u8>, &BlobMeta)> = self.index.pairs();
            let mut keys: Vec<u128> = Vec::new();
            let mut i: usize = 0;
            while i < pairs.len()
                invariant
                    0 <= i <= pairs@.len(),
                    pairs@.len() == all.len(),
                    forall|j: int| 0 <= j < pairs@.len() ==> *(#[trigger] pairs@[j]).1 == all[j].1,
                    keys@.len() == i,
                    forall|j: int| 0 <= j < i ==> #[trigger] keys@[j] == age_keys(all)[j],
                decreases pairs@.len() - i,
            {
                let received: u64 = pairs[i].1.received;
                keys.push(
                    if received == 0 {
                        0x1_0000_0000_0000_0000
                    } else {
                        received as u128
                    },
                );
                i += 1;
            }
            assert(keys@ =~= age_keys(all));
            let order: Vec<usize> = sorted_positions(&keys);
            proof {
                order0 = order@;
            }
            let ghost by_age = blobs_in_order(all, order@);
            assert(by_age.take(0) =~= Seq::empty());
            assert(views(ids@) =~= keys_of(by_age.take(0)));
            assert(name_views(names@) =~= names_of(by_age.take(0)));
            while n < order.len() && used as u128 + needed as u128 > limit
                invariant
                    0 <= n <= order@.len(),
                    stable_order(age_keys(all), order@),
                    order@.len() == all.len(),
                    by_age == blobs_in_order(all, order@),
                    pairs@.len() == all.len(),
                    forall|j: int|
                        0 <= j < pairs@.len() ==> (#[trigger] pairs@[j]).0@ == all[j].0 && *pairs@[j].1 == all[j].1,
                    used == freed(s.used, bytes_of(by_age.take(n as int))),
                    views(ids@) == keys_of(by_age.take(n as int)),
                    name_views(names@) == names_of(by_age.take(n as int)),
                    forall|k: int| 0 <= k < n ==> freed(s.used, #[trigger] bytes_of(by_age.take(k))) + needed > limit,
                decreases order@.len() - n,
            {
                let p: usize = order[n];
                let ghost b = by_age[n as int];
                assert(b == all[p as int]);
                proof {
                    assert(by_age.take(n + 1).drop_last() =~= by_age.take(n as int));
                    assert(by_age.take(n + 1) =~= by_age.take(n as int).push(b));
                }
                let meta: &BlobMeta = pairs[p].1;
                let ghost ids0 = views(ids@);
                let ghost names0 = name_views(names@);
                let id: Vec<u8> = copied(pairs[p].0.as_slice());
                let name: BlobName = BlobName {
                    destination_hash: copied(meta.destination_hash.as_slice()),
                    message_id: copied(pairs[p].0.as_slice()),
                };
                ids.push(id);
                names.push(name);
                used = if used >= meta.size as u64 {
                    used - meta.size as u64
                } else {
                    0
                };
                proof {
                    assert(views(ids@) =~= ids0.push(id@));
                    assert(name_views(names@) =~= names0.push((name.destination_hash@, name.message_id@)));
                    assert(keys_of(by_age.take(n + 1)) =~= keys_of(by_age.take(n as int)).push(b.0));
                    assert(names_of(by_age.take(n + 1)) =~= names_of(by_age.take(n as int)).push(
                        (b.1.destination_hash@, b.0),
                    ));
                }
                n += 1;
            }
        }
        proof {
            let by_age = blobs_in_order(all, order0);
            crate::order::law_stable_order_is_unique(age_keys(all), order0, blob_age_order(all));
            assert(enough_room(by_age, s.used, needed as nat, s.limit as nat, n as int));
            law_room_is_unique(
                by_age,
                s.used,
                needed as nat,
                s.limit as nat,
                n as int,
                choose|m: int| enough_room(by_age, s.used, needed as nat, s.limit as nat, m),
            );
        }
        self.index.remove_all(&ids);
        self.used_bytes = used;
        names
    }

    /// Makes room for a blob: blobs that are too old go where it is time to
    /// look for them, and then as few of the oldest as it takes. The blob is
    /// refused where it does not fit even then.
    pub fn make_room(&mut self, size: u64, now: u64) -> (r: Room)
        requires
            old(self).wf(),
        ensures
            final(self).wf(),
            final(self)@ == with_room(old(self)@, size as nat, now),
            name_views(r.evicted@) == names_of(due_for_age(old(self)@, now)) + names_of(
                in_the_way(aged(old(self)@, now), size as nat),
            ),
            r.refused is Some <==> final(self).used_bytes + size > old(self).storage_limit_bytes,
            r.refused matches Some(text) ==> text@ == full_text(final(self).used_bytes, old(self).storage_limit_bytes),
    {
        let mut evicted: Vec<BlobName> = Vec::new();
        if now > self.last_eviction && now - self.last_eviction > EVICT_CHECK_INTERVAL {
            evicted = self.evict_older_than(now, BLOB_TTL);
            self.last_eviction = now;
        } else {
            assert(name_views(evicted@) =~= names_of(due_for_age(old(self)@, now)));
        }
        let mut more: Vec<BlobName> = self.evict_to_fit(size);
        let ghost first = name_views(evicted@);
        let ghost second = name_views(more@);
        evicted.append(&mut more);
        assert(name_views(evicted@) =~= first + second);
        let refused: Option<String> = if self.used_bytes as u128 + size as u128 > self.storage_limit_bytes as u128 {
            let head: String = "Storage limit reached (".to_owned();
            Some(
                head.concat(decimal(self.used_bytes).as_str()).concat("/").concat(
                    decimal(self.storage_limit_bytes).as_str(),
                ).concat(" bytes)"),
            )
        } else {
            None
        };
        Room { evicted, refused }
    }
}

/// The oldest goes first: the blobs that go are the first in the order of
/// their age, so none of them is younger than one that stays.
pub proof fn law_oldest_goes_first(s: StoreView, needed: nat, i: int, j: int)
    requires
        s.blobs.len() <= usize::MAX,
        0 <= i < in_the_way(s, needed).len() <= j < s.blobs.len(),
    ensures
        stable_order(age_keys(s.blobs), blob_age_order(s.blobs)),
        ({
            let by_age = blobs_in_order(s.blobs, blob_age_order(s.blobs));
            &&& in_the_way(s, needed) == by_age.take(in_the_way(s, needed).len() as int)
            &&& age_key(in_the_way(s, needed)[i].1) <= age_key(by_age[j].1)
        }),
{
    crate::order::law_stable_order_exists(age_keys(s.blobs));
    let order = blob_age_order(s.blobs);
    let by_age = blobs_in_order(s.blobs, order);
    law_room_exists(by_age, s.used, needed, s.limit as nat);
    assert(crate::order::precedes(age_keys(s.blobs), order[i] as int, order[j] as int));
}

/// Where a blob is refused nothing is left that could have made room: all the
/// others went.
pub proof fn law_refused_only_when_nothing_is_left(s: StoreView, needed: nat)
    requires
        s.blobs.len() <= usize::MAX,
        without_blobs(s, in_the_way(s, needed)).used + needed > s.limit,
    ensures
        in_the_way(s, needed) == blobs_in_order(s.blobs, blob_age_order(s.blobs)),
        in_the_way(s, needed).len() == s.blobs.len(),
{
    crate::order::law_stable_order_exists(age_keys(s.blobs));
    let by_age = blobs_in_order(s.blobs, blob_age_order(s.blobs));
    law_room_exists(by_age, s.used, needed, s.limit as nat);
    let n = choose|m: int| enough_room(by_age, s.used, needed, s.limit as nat, m);
    assert(n == by_age.len());
    assert(by_age.take(n) =~= by_age);
}

/// The bytes of blobs add up.
pub proof fn law_bytes_add_up(a: Seq<(Seq<u8>, BlobMeta)>, b: Seq<(Seq<u8>, BlobMeta)>, one: (Seq<u8>, BlobMeta))
    ensures
        bytes_of(a + b) == bytes_of(a) + bytes_of(b),
        bytes_of(seq![one]) == one.1.size,
        bytes_of(Seq::<(Seq<u8>, BlobMeta)>::empty()) == 0,
    decreases b.len(),
{
    if b.len() == 0 {
        assert(a + b =~= a);
    } else {
        law_bytes_add_up(a, b.drop_last(), one);
        assert((a + b).drop_last() =~= a + b.drop_last());
        assert((a + b).last() == b.last());
    }
    assert(seq![one].drop_last() =~= Seq::<(Seq<u8>, BlobMeta)>::empty());
    assert(bytes_of(seq![one].drop_last()) == 0);
}

/// Which blobs are left once it was time to look for old ones: those of unknown
/// age and those that were received no more than 30 days ago. It is time to look
/// where the last look is more than an hour ago; otherwise nothing changes.
pub proof fn law_old_blobs_go(s: StoreView, now: u64, b: (Seq<u8>, BlobMeta))
    requires
        distinct(s.blobs),
    ensures
        aged(s, now).blobs.contains(b) <==> s.blobs.contains(b) && !(now - s.last_eviction > 3_600_000_000_000
            && b.1.received > 0 && now - b.1.received > 2_592_000_000_000_000),
        now - s.last_eviction > 3_600_000_000_000 ==> aged(s, now).last_eviction == now,
        now - s.last_eviction <= 3_600_000_000_000 ==> aged(s, now) == s,
        aged(s, now).limit == s.limit,
        due_for_age(s, now).contains(b) ==> s.blobs.contains(b) && !aged(s, now).blobs.contains(b),
{
    let gone = s.blobs.filter(is_older(now, BLOB_TTL));
    let keys = keys_of(gone);
    lemma_filter_holds(s.blobs, is_older(now, BLOB_TTL));
    lemma_filter_holds(s.blobs, not_among::<BlobMeta>(keys));
    if s.blobs.contains(b) {
        assert(keys.contains(b.0) <==> is_older(now, BLOB_TTL)(b)) by {
            if keys.contains(b.0) {
                let k = keys.index_of(b.0);
                assert(gone.contains(gone[k]));
                let i = s.blobs.index_of(gone[k]);
                let j = s.blobs.index_of(b);
                if i < j {
                    assert(s.blobs[i].0 != s.blobs[j].0);
                } else if j < i {
                    assert(s.blobs[j].0 != s.blobs[i].0);
                }
            }
            if is_older(now, BLOB_TTL)(b) {
                assert(gone.contains(b));
                let k = gone.index_of(b);
                assert(keys[k] == b.0);
            }
        }
    }
}

/// As few blobs go as it takes: none where there is room; what goes makes room,
/// unless it is all there is; and without the last of them there would be none.
pub proof fn law_no_more_go_than_it_takes(s: StoreView, needed: nat)
    requires
        s.blobs.len() <= usize::MAX,
    ensures
        ({
            let gone = in_the_way(s, needed);
            let left = |freed: nat|
                if s.used >= freed {
                    s.used - freed
                } else {
                    0
                };
            &&& s.used + needed <= s.limit ==> gone.len() == 0
            &&& gone.len() < s.blobs.len() ==> left(bytes_of(gone)) + needed <= s.limit
            &&& gone.len() > 0 ==> left(bytes_of(gone.drop_last())) + needed > s.limit
            &&& gone.len() <= s.blobs.len()
            &&& without_blobs(s, gone).used == left(bytes_of(gone))
        }),
{
    crate::order::law_stable_order_exists(age_keys(s.blobs));
    let by_age = blobs_in_order(s.blobs, blob_age_order(s.blobs));
    law_room_exists(by_age, s.used, needed, s.limit as nat);
    let n = choose|m: int| enough_room(by_age, s.used, needed, s.limit as nat, m);
    assert(by_age.take(0) =~= Seq::empty());
    if n > 0 {
        assert(by_age.take(n).drop_last() =~= by_age.take(n - 1));
        assert(freed(s.used, bytes_of(by_age.take(0))) + needed > s.limit);
        assert(freed(s.used, bytes_of(by_age.take(n - 1))) + needed > s.limit);
    }
}

/// A blob that is added is found under its id with its channel, its time and its
/// size, its bytes are counted, and every other blob stays as it was.
pub proof fn law_added_blob_is_found(
    before: StoreView,
    after: StoreView,
    id: Seq<u8>,
    destination_hash: Seq<u8>,
    received: u64,
    size: usize,
    other: Seq<u8>,
)
    requires
        distinct(before.blobs),
        blob_added(before, after, id, destination_hash, received, size),
        before.used + size <= u64::MAX,
        other != id,
    ensures
        has_key(after.blobs, id),
        value_of(after.blobs, id).destination_hash@ == destination_hash,
        value_of(after.blobs, id).received == received,
        value_of(after.blobs, id).size == size,
        after.used == before.used + size,
        after.limit == before.limit,
        has_key(after.blobs, other) <==> has_key(before.blobs, other),
        has_key(before.blobs, other) ==> value_of(after.blobs, other) == value_of(before.blobs, other),
{
    let m = choose|m: BlobMeta|
        #![trigger meta_is(m, destination_hash, received, size)]
        meta_is(m, destination_hash, received, size) && after.blobs == put(before.blobs, id, m);
    crate::id_map::law_put_is_found(before.blobs, id, m, other);
}

/// The blobs of a channel are those that were sent to it.
pub proof fn law_blobs_of_a_channel(blobs: Seq<(Seq<u8>, BlobMeta)>, channel: Seq<u8>, b: (Seq<u8>, BlobMeta))
    ensures
        blobs.filter(is_for_channel(channel)).contains(b) <==> blobs.contains(b) && b.1.destination_hash@ == channel,
        names_of(blobs).len() == blobs.len(),
        forall|i: int|
            0 <= i < blobs.len() ==> #[trigger] names_of(blobs)[i] == (blobs[i].1.destination_hash@, blobs[i].0),
{
    lemma_filter_holds(blobs, is_for_channel(channel));
}

/// A blob that goes for room was received no later than any that stays, and one
/// of unknown age goes only where nothing of known age stays.
pub proof fn law_youngest_and_unknown_stay(s: StoreView, needed: nat, i: int, j: int)
    requires
        s.blobs.len() <= usize::MAX,
        0 <= i < in_the_way(s, needed).len() <= j < s.blobs.len(),
    ensures
        ({
            let gone = in_the_way(s, needed)[i].1.received;
            let stays = blobs_in_order(s.blobs, blob_age_order(s.blobs))[j].1.received;
            &&& gone == 0 ==> stays == 0
            &&& gone > 0 && stays > 0 ==> gone <= stays
        }),
{
    law_oldest_goes_first(s, needed, i, j);
}

/// Room for a blob is made in two steps: what has expired goes, and of what is
/// left as many of the oldest as it takes. Nothing comes in on the way, and
/// nothing goes where there is room and no check of ages is due.
pub proof fn law_room_is_made(s: StoreView, needed: nat, now: u64, b: (Seq<u8>, BlobMeta))
    requires
        distinct(s.blobs),
        s.blobs.len() <= usize::MAX,
    ensures
        with_room(s, needed, now).blobs.contains(b) ==> s.blobs.contains(b),
        with_room(s, needed, now).blobs.contains(b) && now - s.last_eviction > 3_600_000_000_000 ==> b.1.received == 0
            || now - b.1.received <= 2_592_000_000_000_000,
        s.blobs.contains(b) && !with_room(s, needed, now).blobs.contains(b) ==> !aged(s, now).blobs.contains(b)
            || keys_of(in_the_way(aged(s, now), needed)).contains(b.0),
        now - s.last_eviction <= 3_600_000_000_000 && s.used + needed <= s.limit ==> with_room(s, needed, now).blobs
            == s.blobs && with_room(s, needed, now).used == s.used,
        with_room(s, needed, now).limit == s.limit,
{
    law_old_blobs_go(s, now, b);
    let a = aged(s, now);
    let gone = in_the_way(a, needed);
    lemma_filter_holds(a.blobs, not_among::<BlobMeta>(keys_of(gone)));
    if now - s.last_eviction <= 3_600_000_000_000 && s.used + needed <= s.limit {
        law_no_more_go_than_it_takes(s, needed);
        assert(gone.len() == 0);
        assert(keys_of(gone).len() == 0);
        crate::octets::lemma_filter_all(s.blobs, not_among::<BlobMeta>(keys_of(gone)));
        assert(gone =~= Seq::empty());
    }
}

/// A blob is kept in a directory of its channel under its id, both written as
/// hexadecimal digits.
pub proof fn law_where_a_blob_is_kept(dir: Seq<char>, channel: Seq<u8>, id: Seq<u8>)
    requires
        dir.len() > 0,
        dir.last() != '/',
        channel.len() > 0,
    ensures
        blob_path_of(dir, channel, id) == dir + seq!['/'] + hex_text(channel) + seq!['/'] + hex_text(id),
{
    let inner = dir + seq!['/'] + hex_text(channel);
    assert(inner.last() == hex_text(channel).last());
    crate::text::law_digits_of_a_byte(channel, channel.len() - 1);
    assert(hex_text(channel).last() == hex_text(channel)[2 * (channel.len() - 1) + 1]);
}

/// A blob is refused exactly where it does not fit once room was made.
pub proof fn law_when_a_blob_is_refused(store: &mut BlobStore, size: u64, now: u64, r: Room, b: (Seq<u8>, BlobMeta))
    requires
        call_ensures(BlobStore::make_room, (store, size, now), r),
        distinct(old(store)@.blobs),
        old(store)@.blobs.len() <= usize::MAX,
    ensures
        r.refused is Some <==> final(store).used_bytes + size > old(store).storage_limit_bytes,
        final(store)@.blobs.contains(b) ==> old(store)@.blobs.contains(b),
        old(store)@.used + size <= old(store)@.limit && now - old(store)@.last_eviction <= 3_600_000_000_000 ==> final(store)@.blobs == old(store)@.blobs,
{
    law_room_is_made(old(store)@, size as nat, now, b);
}

/// A blob that is deleted is gone, with the room that it took, and no other is.
pub proof fn law_deleted_blob_is_gone(
    store: &mut BlobStore,
    message_id: &[u8],
    r: Option<BlobName>,
    k: int,
    b: (Seq<u8>, BlobMeta),
)
    requires
        call_ensures(BlobStore::delete, (store, message_id), r),
        distinct(old(store)@.blobs),
        0 <= k < old(store)@.blobs.len(),
        old(store)@.blobs[k].0 == message_id@,
    ensures
        r is Some,
        r->0.destination_hash@ == old(store)@.blobs[k].1.destination_hash@,
        final(store)@.blobs.contains(b) <==> old(store)@.blobs.contains(b) && b.0 != message_id@,
        old(store).used_bytes >= old(store)@.blobs[k].1.size ==> final(store)@.used + old(store)@.blobs[k].1.size
            == old(store).used_bytes,
{
    crate::id_map::law_value_is_found(old(store)@.blobs, k);
    crate::id_map::law_only_the_named_go(old(store)@.blobs, Seq::empty(), message_id@, b);
}

} // verus!
