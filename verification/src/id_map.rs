//! A map keyed by byte strings that keeps the order in which its keys came,
//! with lookups that do not slow down as it grows.
use std::collections::HashMap;
use vstd::prelude::*;
use crate::octets::{copied, lemma_filter_all, lemma_filter_holds, same_bytes, views};

verus! {

broadcast use vstd::std_specs::hash::group_hash_axioms;

/// An entry of a map.
pub struct Slot<V> {
    id: Vec<u8>,
    value: V,
}

/// An insertion-ordered map from byte strings to values.
pub struct IdMap<V> {
    slots: Vec<Option<Slot<V>>>,
    live: usize,
    index: HashMap<u64, usize>,
    overflow: Vec<usize>,
}

/// The entries of the slots that are in use, in order.
pub closed spec fn live_of<V>(slots: Seq<Option<Slot<V>>>) -> Seq<(Seq<u8>, V)>
    decreases slots.len(),
{
    if slots.len() == 0 {
        Seq::empty()
    } else {
        let rest = live_of(slots.drop_last());
        match slots.last() {
            Some(s) => rest.push((s.id@, s.value)),
            None => rest,
        }
    }
}

/// The keys of a list of entries.
pub open spec fn keys_of<V>(entries: Seq<(Seq<u8>, V)>) -> Seq<Seq<u8>> {
    entries.map_values(|e: (Seq<u8>, V)| e.0)
}

/// The test that an entry is not the one under `id`.
pub open spec fn not_under<V>(id: Seq<u8>) -> spec_fn((Seq<u8>, V)) -> bool {
    |e: (Seq<u8>, V)| e.0 != id
}

/// The entries other than the one under `id`.
pub open spec fn without<V>(entries: Seq<(Seq<u8>, V)>, id: Seq<u8>) -> Seq<(Seq<u8>, V)> {
    entries.filter(not_under(id))
}

/// The test that an entry is under none of `ids`.
pub open spec fn not_among<V>(ids: Seq<Seq<u8>>) -> spec_fn((Seq<u8>, V)) -> bool {
    |e: (Seq<u8>, V)| !ids.contains(e.0)
}

/// The entries that are under none of `ids`.
pub open spec fn without_all<V>(entries: Seq<(Seq<u8>, V)>, ids: Seq<Seq<u8>>) -> Seq<(Seq<u8>, V)> {
    entries.filter(not_among(ids))
}

/// Leaving out one more key.
pub proof fn lemma_without_step<V>(entries: Seq<(Seq<u8>, V)>, ids: Seq<Seq<u8>>, n: int)
    requires
        0 <= n < ids.len(),
    ensures
        without(without_all(entries, ids.take(n)), ids[n]) == without_all(entries, ids.take(n + 1)),
    decreases entries.len(),
{
    reveal(Seq::filter);
    let few = ids.take(n);
    let more = ids.take(n + 1);
    if entries.len() > 0 {
        lemma_without_step(entries.drop_last(), ids, n);
        let e = entries.last();
        let kept = without_all(entries.drop_last(), few);
        assert(more.contains(e.0) <==> few.contains(e.0) || e.0 == ids[n]) by {
            if few.contains(e.0) {
                let i = few.index_of(e.0);
                assert(more[i] == e.0);
            }
            if e.0 == ids[n] {
                assert(more[n] == e.0);
            }
            if more.contains(e.0) {
                let i = more.index_of(e.0);
                if i < n {
                    assert(few[i] == e.0);
                }
            }
        }
        if !few.contains(e.0) {
            assert(kept.push(e).drop_last() =~= kept);
        }
    }
}

/// Whether no two entries have the same key.
pub open spec fn distinct<V>(entries: Seq<(Seq<u8>, V)>) -> bool {
    forall|i: int, j: int|
        0 <= i < j < entries.len() ==> (#[trigger] entries[i]).0 != (#[trigger] entries[j]).0
}

/// What is left of entries with distinct keys has distinct keys.
pub proof fn lemma_filter_distinct<V>(entries: Seq<(Seq<u8>, V)>, keep: spec_fn((Seq<u8>, V)) -> bool)
    requires
        distinct(entries),
    ensures
        distinct(entries.filter(keep)),
    decreases entries.len(),
{
    reveal(Seq::filter);
    if entries.len() > 0 {
        let rest = entries.drop_last();
        lemma_filter_distinct(rest, keep);
        lemma_filter_holds(rest, keep);
        let kept = rest.filter(keep);
        let all = entries.filter(keep);
        assert forall|i: int, j: int| 0 <= i < j < all.len() implies (#[trigger] all[i]).0 != (#[trigger] all[j]).0 by {
            if j < kept.len() {
                assert(kept[i].0 != kept[j].0);
            } else {
                assert(kept.contains(kept[i]));
                let k = rest.index_of(kept[i]);
                assert(entries[k].0 != entries[entries.len() - 1].0);
            }
        }
    }
}

/// Leaving out the key of one entry takes that entry out.
pub proof fn lemma_without_one<V>(entries: Seq<(Seq<u8>, V)>, i: int)
    requires
        distinct(entries),
        0 <= i < entries.len(),
    ensures
        without(entries, entries[i].0) == entries.remove(i),
    decreases entries.len(),
{
    reveal(Seq::filter);
    let id = entries[i].0;
    let last = entries.len() - 1;
    let rest = entries.drop_last();
    if i == last {
        assert forall|j: int| 0 <= j < rest.len() implies not_under::<V>(id)(#[trigger] rest[j]) by {
            assert(entries[j].0 != entries[i].0);
        }
        lemma_filter_all(rest, not_under::<V>(id));
        assert(entries.remove(i) =~= rest);
    } else {
        lemma_without_one(rest, i);
        assert(entries[i].0 != entries[last].0);
        assert(entries.remove(i) =~= rest.remove(i).push(entries.last()));
    }
}

/// Whether some entry is under `id`.
pub open spec fn has_key<V>(entries: Seq<(Seq<u8>, V)>, id: Seq<u8>) -> bool {
    exists|i: int| 0 <= i < entries.len() && (#[trigger] entries[i]).0 == id
}

/// The entries with `value` under `id`: in the place of what was there, or as
/// a new entry.
pub open spec fn put<V>(entries: Seq<(Seq<u8>, V)>, id: Seq<u8>, value: V) -> Seq<(Seq<u8>, V)> {
    if has_key(entries, id) {
        Seq::new(
            entries.len(),
            |i: int|
                if entries[i].0 == id {
                    (id, value)
                } else {
                    entries[i]
                },
        )
    } else {
        entries.push((id, value))
    }
}

/// The value under `id`.
pub open spec fn value_of<V>(entries: Seq<(Seq<u8>, V)>, id: Seq<u8>) -> V {
    entries[choose|i: int| 0 <= i < entries.len() && (#[trigger] entries[i]).0 == id].1
}

/// There is one value under an id.
pub proof fn lemma_value_of<V>(entries: Seq<(Seq<u8>, V)>, id: Seq<u8>, value: V)
    requires
        distinct(entries),
        entries.contains((id, value)),
    ensures
        has_key(entries, id),
        value_of(entries, id) == value,
{
    let k = entries.index_of((id, value));
    assert(entries[k].0 == id);
    let i = choose|i: int| 0 <= i < entries.len() && (#[trigger] entries[i]).0 == id;
    if i < k {
        assert(entries[i].0 != entries[k].0);
    } else if k < i {
        assert(entries[k].0 != entries[i].0);
    }
}

/// The value of each entry is found under its key, and nothing is found under a
/// key that no entry has.
pub proof fn law_value_is_found<V>(entries: Seq<(Seq<u8>, V)>, k: int)
    requires
        distinct(entries),
        0 <= k < entries.len(),
    ensures
        has_key(entries, entries[k].0),
        value_of(entries, entries[k].0) == entries[k].1,
        forall|id: Seq<u8>| #[trigger] has_key(entries, id) <==> keys_of(entries).contains(id),
{
    assert(entries[k] == (entries[k].0, entries[k].1));
    assert(entries.contains((entries[k].0, entries[k].1)));
    lemma_value_of(entries, entries[k].0, entries[k].1);
    assert forall|id: Seq<u8>| #[trigger] has_key(entries, id) <==> keys_of(entries).contains(id) by {
        if has_key(entries, id) {
            let i = choose|i: int| 0 <= i < entries.len() && (#[trigger] entries[i]).0 == id;
            assert(keys_of(entries)[i] == id);
        }
        if keys_of(entries).contains(id) {
            let i = keys_of(entries).index_of(id);
            assert(entries[i].0 == id);
        }
    }
}

/// What is put under a key is found there, what is under any other key stays as
/// it was, and a key keeps its place.
pub proof fn law_put_is_found<V>(entries: Seq<(Seq<u8>, V)>, id: Seq<u8>, value: V, other: Seq<u8>)
    requires
        distinct(entries),
        other != id,
    ensures
        distinct(put(entries, id, value)),
        has_key(put(entries, id, value), id),
        value_of(put(entries, id, value), id) == value,
        has_key(put(entries, id, value), other) <==> has_key(entries, other),
        has_key(entries, other) ==> value_of(put(entries, id, value), other) == value_of(entries, other),
        keys_of(put(entries, id, value)) == (if keys_of(entries).contains(id) {
            keys_of(entries)
        } else {
            keys_of(entries).push(id)
        }),
{
    let after = put(entries, id, value);
    assert forall|i: int, j: int| 0 <= i < j < after.len() implies (#[trigger] after[i]).0 != (#[trigger] after[j]).0 by {
        if j < entries.len() {
            assert(entries[i].0 != entries[j].0);
        }
    }
    let k = if has_key(entries, id) {
        choose|i: int| 0 <= i < entries.len() && (#[trigger] entries[i]).0 == id
    } else {
        entries.len() as int
    };
    assert(after[k].0 == id && after[k].1 == value);
    law_value_is_found(after, k);
    if entries.len() > 0 {
        law_value_is_found(entries, 0);
    } else {
        assert(keys_of(entries).len() == 0);
    }
    if has_key(entries, other) {
        let i = choose|i: int| 0 <= i < entries.len() && (#[trigger] entries[i]).0 == other;
        assert(after[i] == entries[i]);
        law_value_is_found(after, i);
        law_value_is_found(entries, i);
    }
    if has_key(after, other) {
        let i = choose|i: int| 0 <= i < after.len() && (#[trigger] after[i]).0 == other;
        assert(i < entries.len());
        assert(entries[i].0 == other);
    }
    if has_key(entries, id) {
        assert(keys_of(after) =~= keys_of(entries));
    } else {
        assert(keys_of(after) =~= keys_of(entries).push(id));
    }
}

/// The entries that are left once some went are those under no key of theirs.
pub proof fn law_only_the_named_go<V>(entries: Seq<(Seq<u8>, V)>, ids: Seq<Seq<u8>>, id: Seq<u8>, e: (Seq<u8>, V))
    ensures
        without_all(entries, ids).contains(e) <==> entries.contains(e) && !ids.contains(e.0),
        without(entries, id).contains(e) <==> entries.contains(e) && e.0 != id,
        keys_of(entries).len() == entries.len(),
        forall|i: int| 0 <= i < entries.len() ==> #[trigger] keys_of(entries)[i] == entries[i].0,
{
    crate::octets::lemma_filter_holds(entries, not_among::<V>(ids));
    crate::octets::lemma_filter_holds(entries, not_under::<V>(id));
}

/// Putting a value in the place of another under its key.
proof fn lemma_put_at<V>(entries: Seq<(Seq<u8>, V)>, k: int, value: V)
    requires
        distinct(entries),
        0 <= k < entries.len(),
    ensures
        entries.update(k, (entries[k].0, value)) == put(entries, entries[k].0, value),
{
    let id = entries[k].0;
    assert(has_key(entries, id));
    assert forall|i: int| 0 <= i < entries.len() implies entries.update(k, (id, value))[i] == put(entries, id, value)[i] by {
        if i < k {
            assert(entries[i].0 != entries[k].0);
        } else if k < i {
            assert(entries[k].0 != entries[i].0);
        }
    }
    assert(entries.update(k, (id, value)) =~= put(entries, id, value));
}

/// The number under which the index looks for `id`.
spec fn id_key(id: Seq<u8>) -> u64
    decreases id.len(),
{
    if id.len() == 0 {
        0xcbf2_9ce4_8422_2325
    } else {
        (id_key(id.drop_last()) ^ (id.last() as u64)).wrapping_mul(0x0000_0100_0000_01b3)
    }
}

fn key_of(id: &[u8]) -> (r: u64)
    ensures
        r == id_key(id@),
{
    let mut h: u64 = 0xcbf2_9ce4_8422_2325;
    let mut i: usize = 0;
    assert(id@.take(0) =~= Seq::<u8>::empty());
    while i < id.len()
        invariant
            0 <= i <= id@.len(),
            h == id_key(id@.take(i as int)),
        decreases id@.len() - i,
    {
        assert(id@.take(i + 1).drop_last() =~= id@.take(i as int));
        h = (h ^ (id[i] as u64)).wrapping_mul(0x0000_0100_0000_01b3);
        i += 1;
    }
    assert(id@.take(id@.len() as int) =~= id@);
    h
}

/// The place among the entries of the slot at `p`.
spec fn rank<V>(slots: Seq<Option<Slot<V>>>, p: int) -> int {
    live_of(slots.take(p)).len() as int
}

spec fn slots_distinct<V>(slots: Seq<Option<Slot<V>>>) -> bool {
    forall|p: int, q: int|
        0 <= p < q < slots.len() && (#[trigger] slots[p]) is Some && (#[trigger] slots[q]) is Some
            ==> slots[p]->0.id@ != slots[q]->0.id@
}

proof fn lemma_live_len<V>(slots: Seq<Option<Slot<V>>>)
    ensures
        live_of(slots).len() <= slots.len(),
    decreases slots.len(),
{
    if slots.len() > 0 {
        lemma_live_len(slots.drop_last());
    }
}

proof fn lemma_rank<V>(slots: Seq<Option<Slot<V>>>, p: int)
    requires
        0 <= p < slots.len(),
        slots[p] is Some,
    ensures
        0 <= rank(slots, p) < live_of(slots).len(),
        live_of(slots)[rank(slots, p)] == (slots[p]->0.id@, slots[p]->0.value),
    decreases slots.len(),
{
    if p == slots.len() - 1 {
        assert(slots.take(p) =~= slots.drop_last());
    } else {
        lemma_rank(slots.drop_last(), p);
        assert(slots.take(p) =~= slots.drop_last().take(p));
    }
}

proof fn lemma_place<V>(slots: Seq<Option<Slot<V>>>, i: int) -> (p: int)
    requires
        0 <= i < live_of(slots).len(),
    ensures
        0 <= p < slots.len(),
        slots[p] is Some,
        rank(slots, p) == i,
        live_of(slots)[i] == (slots[p]->0.id@, slots[p]->0.value),
    decreases slots.len(),
{
    let rest = live_of(slots.drop_last());
    if i < rest.len() {
        let p = lemma_place(slots.drop_last(), i);
        assert(slots.take(p) =~= slots.drop_last().take(p));
        p
    } else {
        assert(slots.take(slots.len() - 1) =~= slots.drop_last());
        slots.len() - 1
    }
}

proof fn lemma_rank_monotonic<V>(slots: Seq<Option<Slot<V>>>, p: int, q: int)
    requires
        0 <= p < q <= slots.len(),
        slots[p] is Some,
    ensures
        rank(slots, p) < rank(slots, q),
{
    let prefix = slots.take(q);
    lemma_rank(prefix, p);
    assert(prefix.take(p) =~= slots.take(p));
}

proof fn lemma_no_key<V>(slots: Seq<Option<Slot<V>>>, id: Seq<u8>)
    requires
        forall|p: int| 0 <= p < slots.len() && (#[trigger] slots[p]) is Some ==> slots[p]->0.id@ != id,
    ensures
        !has_key(live_of(slots), id),
{
    if has_key(live_of(slots), id) {
        let i = choose|i: int| 0 <= i < live_of(slots).len() && (#[trigger] live_of(slots)[i]).0 == id;
        let p = lemma_place(slots, i);
        assert(slots[p]->0.id@ == id);
    }
}

proof fn lemma_replaced<V>(slots: Seq<Option<Slot<V>>>, p: int, s: Slot<V>)
    requires
        0 <= p < slots.len(),
        slots[p] is Some,
    ensures
        live_of(slots.update(p, Some(s))) == live_of(slots).update(rank(slots, p), (s.id@, s.value)),
    decreases slots.len(),
{
    lemma_rank(slots, p);
    let rest = slots.drop_last();
    if p == slots.len() - 1 {
        assert(slots.update(p, Some(s)).drop_last() =~= rest);
        assert(slots.take(p) =~= rest);
        assert(live_of(slots.update(p, Some(s))) =~= live_of(slots).update(rank(slots, p), (s.id@, s.value)));
    } else {
        assert(slots.update(p, Some(s)).drop_last() =~= rest.update(p, Some(s)));
        assert(slots.take(p) =~= rest.take(p));
        lemma_rank(rest, p);
        lemma_replaced(rest, p, s);
        assert(live_of(slots.update(p, Some(s))) =~= live_of(slots).update(rank(slots, p), (s.id@, s.value)));
    }
}

proof fn lemma_cleared<V>(slots: Seq<Option<Slot<V>>>, p: int)
    requires
        0 <= p < slots.len(),
        slots[p] is Some,
        slots_distinct(slots),
    ensures
        live_of(slots.update(p, None)) == without(live_of(slots), slots[p]->0.id@),
        live_of(slots.update(p, None)).len() + 1 == live_of(slots).len(),
    decreases slots.len(),
{
    reveal(Seq::filter);
    let id = slots[p]->0.id@;
    let pred = not_under::<V>(id);
    let rest = slots.drop_last();
    if p == slots.len() - 1 {
        assert(slots.update(p, None).drop_last() =~= rest);
        assert(live_of(slots).drop_last() =~= live_of(rest));
        assert forall|i: int| 0 <= i < live_of(rest).len() implies pred(#[trigger] live_of(rest)[i]) by {
            let q = lemma_place(rest, i);
            assert(slots[q] is Some);
        }
        lemma_filter_all(live_of(rest), pred);
    } else {
        assert(slots.update(p, None).drop_last() =~= rest.update(p, None));
        lemma_cleared(rest, p);
        if slots.last() is Some {
            assert(live_of(slots).drop_last() =~= live_of(rest));
            assert(slots[slots.len() - 1]->0.id@ != id);
            assert(pred(live_of(slots).last()));
        }
    }
}

impl<V> IdMap<V> {
    /// The entries, in the order in which their keys were added.
    pub closed spec fn view(&self) -> Seq<(Seq<u8>, V)> {
        live_of(self.slots@)
    }

    /// What holds of every map that this module hands out.
    pub closed spec fn wf(&self) -> bool {
        &&& self.live == live_of(self.slots@).len()
        &&& slots_distinct(self.slots@)
        &&& forall|k: u64| #[trigger] self.index@.contains_key(k) ==> self.index@[k] < self.slots@.len()
        &&& forall|j: int| 0 <= j < self.overflow@.len() ==> #[trigger] self.overflow@[j] < self.slots@.len()
        &&& forall|p: int|
            0 <= p < self.slots@.len() && (#[trigger] self.slots@[p]) is Some ==> self.indexed(p)
    }

    spec fn indexed(&self, p: int) -> bool {
        let k = id_key(self.slots@[p]->0.id@);
        ||| self.index@.contains_key(k) && self.index@[k] == p
        ||| exists|j: int| 0 <= j < self.overflow@.len() && self.overflow@[j] == p
    }

    /// No two entries of a map have the same key.
    pub proof fn lemma_distinct(&self)
        requires
            self.wf(),
        ensures
            distinct(self@),
    {
        assert forall|i: int, j: int| 0 <= i < j < self@.len() implies (#[trigger] self@[i]).0 != (
        #[trigger] self@[j]).0 by {
            let p = lemma_place(self.slots@, i);
            let q = lemma_place(self.slots@, j);
            if p > q {
                lemma_rank_monotonic(self.slots@, q, p);
            }
        }
    }

    /// An empty map.
    pub fn new() -> (r: Self)
        ensures
            r.wf(),
            r@ == Seq::<(Seq<u8>, V)>::empty(),
    {
        IdMap { slots: Vec::new(), live: 0, index: HashMap::new(), overflow: Vec::new() }
    }

    /// The number of entries.
    pub fn len(&self) -> (r: usize)
        requires
            self.wf(),
        ensures
            r == self@.len(),
    {
        self.live
    }

    fn matches(&self, p: usize, id: &[u8]) -> (r: bool)
        requires
            p < self.slots@.len(),
        ensures
            r == (self.slots@[p as int] is Some && self.slots@[p as int]->0.id@ == id@),
    {
        match &self.slots[p] {
            Some(s) => same_bytes(s.id.as_slice(), id),
            None => false,
        }
    }

    fn find(&self, id: &[u8]) -> (r: Option<usize>)
        requires
            self.wf(),
        ensures
            r matches Some(p) ==> p < self.slots@.len() && self.slots@[p as int] is Some
                && self.slots@[p as int]->0.id@ == id@,
            r is None ==> forall|p: int|
                0 <= p < self.slots@.len() && (#[trigger] self.slots@[p]) is Some ==> self.slots@[p]->0.id@ != id@,
    {
        let k: u64 = key_of(id);
        if let Some(p) = self.index.get(&k) {
            if self.matches(*p, id) {
                return Some(*p);
            }
        }
        let mut j: usize = 0;
        while j < self.overflow.len()
            invariant
                self.wf(),
                0 <= j <= self.overflow@.len(),
                forall|i: int| 0 <= i < j ==> {
                    let p = #[trigger] self.overflow@[i] as int;
                    !(self.slots@[p] is Some && self.slots@[p]->0.id@ == id@)
                },
            decreases self.overflow@.len() - j,
        {
            let p: usize = self.overflow[j];
            if self.matches(p, id) {
                return Some(p);
            }
            j += 1;
        }
        assert forall|p: int| 0 <= p < self.slots@.len() && (#[trigger] self.slots@[p]) is Some implies self.slots@[p]->0.id@ != id@ by {
            assert(self.indexed(p));
        }
        None
    }

    /// Whether there is an entry under `id`.
    pub fn contains(&self, id: &[u8]) -> (r: bool)
        requires
            self.wf(),
        ensures
            r == has_key(self@, id@),
    {
        match self.find(id) {
            Some(p) => {
                proof {
                    lemma_rank(self.slots@, p as int);
                }
                true
            },
            None => {
                proof {
                    lemma_no_key(self.slots@, id@);
                }
                false
            },
        }
    }

    /// The value under `id`.
    pub fn get(&self, id: &[u8]) -> (r: Option<&V>)
        requires
            self.wf(),
        ensures
            r is Some <==> has_key(self@, id@),
            r matches Some(v) ==> self@.contains((id@, *v)) && *v == value_of(self@, id@),
    {
        match self.find(id) {
            Some(p) => {
                proof {
                    lemma_rank(self.slots@, p as int);
                    assert(live_of(self.slots@)[rank(self.slots@, p as int)].0 == id@);
                    self.lemma_distinct();
                    assert(self@.contains((id@, self.slots@[p as int]->0.value)));
                    lemma_value_of(self@, id@, self.slots@[p as int]->0.value);
                }
                match &self.slots[p] {
                    Some(s) => Some(&s.value),
                    None => None,
                }
            },
            None => {
                proof {
                    lemma_no_key(self.slots@, id@);
                }
                None
            },
        }
    }

    fn append(&mut self, id: Vec<u8>, value: V)
        requires
            old(self).wf(),
            !has_key(old(self)@, id@),
        ensures
            final(self).wf(),
            final(self)@ == old(self)@.push((id@, value)),
            final(self).slots@.len() == old(self).slots@.len() + 1,
    {
        let ghost before = self.slots@;
        let k: u64 = key_of(id.as_slice());
        let p: usize = self.slots.len();
        proof {
            assert forall|q: int| 0 <= q < before.len() && (#[trigger] before[q]) is Some implies before[q]->0.id@ != id@ by {
                lemma_rank(before, q);
            }
        }
        let ghost index0 = self.index@;
        let ghost over0 = self.overflow@;
        let taken: bool = self.index.contains_key(&k);
        if taken {
            self.overflow.push(p);
        } else {
            self.index.insert(k, p);
        }
        proof {
            lemma_live_len(before);
        }
        self.slots.push(Some(Slot { id, value }));
        assert(self.slots.len() == before.len() + 1);
        self.live = self.live + 1;
        proof {
            assert(self.slots@.drop_last() =~= before);
            assert forall|q: int| 0 <= q < self.slots@.len() && (#[trigger] self.slots@[q]) is Some implies self.indexed(q) by {
                if q < before.len() {
                    assert(before[q] is Some);
                    let kq = id_key(before[q]->0.id@);
                    if index0.contains_key(kq) && index0[kq] == q {
                        assert(self.index@[kq] == q);
                    } else {
                        let j = choose|j: int| 0 <= j < over0.len() && over0[j] == q;
                        assert(self.overflow@[j] == q);
                    }
                } else {
                    if taken {
                        assert(self.overflow@[over0.len() as int] == q);
                    }
                }
            }
        }
    }

    /// Adds an entry under `id` unless there is one. Says whether it was added.
    pub fn push_new(&mut self, id: Vec<u8>, value: V) -> (r: bool)
        requires
            old(self).wf(),
        ensures
            final(self).wf(),
            r == !has_key(old(self)@, id@),
            r ==> final(self)@ == old(self)@.push((id@, value)),
            !r ==> final(self)@ == old(self)@,
    {
        if self.contains(id.as_slice()) {
            return false;
        }
        self.append(id, value);
        true
    }

    /// Puts `value` under `id`: in the place of the value that was there, or
    /// as a new entry. Says whether the entry is new.
    pub fn insert(&mut self, id: Vec<u8>, value: V) -> (r: bool)
        requires
            old(self).wf(),
        ensures
            final(self).wf(),
            r == !has_key(old(self)@, id@),
            final(self)@ == put(old(self)@, id@, value),
    {
        match self.find(id.as_slice()) {
            Some(p) => {
                let ghost before = self.slots@;
                proof {
                    lemma_rank(before, p as int);
                    lemma_replaced(before, p as int, Slot { id, value });
                }
                let ghost given = id@;
                self.slots[p] = Some(Slot { id, value });
                proof {
                    assert forall|q: int| 0 <= q < self.slots@.len() && (#[trigger] self.slots@[q]) is Some implies self.indexed(q) by {
                        assert(before[q] is Some);
                        assert(old(self).indexed(q));
                        assert(self.slots@[q]->0.id@ == before[q]->0.id@);
                        if !(self.index@.contains_key(id_key(before[q]->0.id@)) && self.index@[id_key(
                            before[q]->0.id@,
                        )] == q) {
                            let j = choose|j: int| 0 <= j < old(self).overflow@.len() && old(self).overflow@[j] == q;
                            assert(self.overflow@[j] == q);
                        }
                    }
                    assert(old(self)@[rank(before, p as int)].0 == given);
                    old(self).lemma_distinct();
                    lemma_put_at(old(self)@, rank(before, p as int), value);
                }
                false
            },
            None => {
                proof {
                    lemma_no_key(self.slots@, id@);
                }
                self.append(id, value);
                true
            },
        }
    }

    /// Takes the entry under `id` out.
    pub fn remove(&mut self, id: &[u8]) -> (r: Option<V>)
        requires
            old(self).wf(),
        ensures
            final(self).wf(),
            final(self)@ == without(old(self)@, id@),
            r is Some <==> has_key(old(self)@, id@),
            r matches Some(v) ==> old(self)@.contains((id@, v)),
    {
        match self.find(id) {
            Some(p) => {
                let ghost before = self.slots@;
                let k: u64 = key_of(id);
                let in_index: bool = match self.index.get(&k) {
                    Some(q) => *q == p,
                    None => false,
                };
                proof {
                    lemma_rank(before, p as int);
                    lemma_cleared(before, p as int);
                    assert(live_of(before)[rank(before, p as int)].0 == id@);
                }
                let mut taken: Option<Slot<V>> = None;
                std::mem::swap(&mut self.slots[p], &mut taken);
                assert(self.slots@ =~= before.update(p as int, None));
                self.live = self.live - 1;
                if in_index {
                    self.index.remove(&k);
                } else {
                    self.drop_overflow(p);
                }
                proof {
                    assert forall|q: int| 0 <= q < self.slots@.len() && (#[trigger] self.slots@[q]) is Some implies self.indexed(q) by {
                        assert(before[q] is Some);
                        assert(old(self).indexed(q));
                        let kq = id_key(before[q]->0.id@);
                        if old(self).index@.contains_key(kq) && old(self).index@[kq] == q {
                            assert(self.index@.contains_key(kq));
                        } else {
                            let j = choose|j: int| 0 <= j < old(self).overflow@.len() && old(self).overflow@[j] == q;
                            assert(old(self).overflow@.contains(q as usize));
                            assert(self.overflow@.contains(q as usize));
                        }
                    }
                }
                proof {
                    assert forall|j: int| 0 <= j < self.overflow@.len() implies #[trigger] self.overflow@[j] < self.slots@.len() by {
                        assert(self.overflow@.contains(self.overflow@[j]));
                        assert(old(self).overflow@.contains(self.overflow@[j]));
                    }
                    assert forall|a: int, b: int|
                        0 <= a < b < self.slots@.len() && (#[trigger] self.slots@[a]) is Some && (
                        #[trigger] self.slots@[b]) is Some implies self.slots@[a]->0.id@ != self.slots@[b]->0.id@ by {
                        assert(before[a] is Some && before[b] is Some);
                    }
                }
                if self.slots.len() >= 32 && self.slots.len() / 2 > self.live {
                    self.compact();
                }
                match taken {
                    Some(s) => Some(s.value),
                    None => None,
                }
            },
            None => {
                proof {
                    lemma_no_key(self.slots@, id@);
                    lemma_filter_all(self@, not_under::<V>(id@));
                }
                None
            },
        }
    }

    /// Takes the first mention of the slot at `p` out of the overflow.
    fn drop_overflow(&mut self, p: usize)
        ensures
            final(self).overflow@ == old(self).overflow@.remove_value(p),
            final(self).slots == old(self).slots,
            final(self).index == old(self).index,
            final(self).live == old(self).live,
            forall|q: usize| q != p && old(self).overflow@.contains(q) ==> #[trigger] final(self).overflow@.contains(q),
            forall|q: usize| #[trigger] final(self).overflow@.contains(q) ==> old(self).overflow@.contains(q),
    {
        let ghost before = self.overflow@;
        let mut j: usize = 0;
        while j < self.overflow.len()
            invariant
                0 <= j <= self.overflow@.len(),
                self.overflow@ == before,
                self.slots == old(self).slots,
                self.index == old(self).index,
                self.live == old(self).live,
                before == old(self).overflow@,
                forall|i: int| 0 <= i < j ==> #[trigger] before[i] != p,
            decreases self.overflow@.len() - j,
        {
            if self.overflow[j] == p {
                self.overflow.remove(j);
                proof {
                    before.index_of_first_ensures(p);
                    assert forall|q: usize| q != p && before.contains(q) implies #[trigger] self.overflow@.contains(q) by {
                        let i = before.index_of(q);
                        if i < j {
                            assert(self.overflow@[i] == q);
                        } else {
                            assert(self.overflow@[i - 1] == q);
                        }
                    }
                    assert forall|q: usize| #[trigger] self.overflow@.contains(q) implies before.contains(q) by {
                        let i = self.overflow@.index_of(q);
                        if i < j {
                            assert(before[i] == q);
                        } else {
                            assert(before[i + 1] == q);
                        }
                    }
                }
                return;
            }
            j += 1;
        }
        proof {
            before.index_of_first_ensures(p);
        }
    }

    /// Gives up the slots that are not in use: there is one for each entry
    /// then.
    fn compact(&mut self)
        requires
            old(self).wf(),
        ensures
            final(self).wf(),
            final(self)@ == old(self)@,
            final(self).slots@.len() == old(self)@.len(),
    {
        let ghost all = self.slots@;
        let mut slots: Vec<Option<Slot<V>>> = Vec::new();
        std::mem::swap(&mut self.slots, &mut slots);
        self.index = HashMap::new();
        self.overflow = Vec::new();
        self.live = 0;
        let mut i: usize = 0;
        assert(all.take(0) =~= Seq::<Option<Slot<V>>>::empty());
        while i < slots.len()
            invariant
                0 <= i <= slots@.len(),
                slots@.len() == all.len(),
                slots_distinct(all),
                forall|j: int| i <= j < all.len() ==> slots@[j] == all[j],
                self.wf(),
                self@ == live_of(all.take(i as int)),
                self.slots@.len() == self@.len(),
            decreases slots@.len() - i,
        {
            let mut taken: Option<Slot<V>> = None;
            std::mem::swap(&mut slots[i], &mut taken);
            proof {
                assert(all.take(i + 1).drop_last() =~= all.take(i as int));
            }
            if let Some(s) = taken {
                proof {
                    assert(all[i as int] == Some(s));
                    assert forall|q: int| 0 <= q < all.take(i as int).len() && (#[trigger] all.take(i as int)[q]) is Some implies all.take(i as int)[q]->0.id@ != s.id@ by {
                        assert(all[q] is Some);
                    }
                    lemma_no_key(all.take(i as int), s.id@);
                }
                self.append(s.id, s.value);
            }
            i += 1;
        }
        assert(all.take(all.len() as int) =~= all);
    }

    /// Takes the entries under `ids` out.
    pub fn remove_all(&mut self, ids: &Vec<Vec<u8>>)
        requires
            old(self).wf(),
        ensures
            final(self).wf(),
            final(self)@ == without_all(old(self)@, views(ids@)),
    {
        let ghost all = self@;
        proof {
            lemma_filter_all(all, not_among::<V>(views(ids@).take(0)));
        }
        let mut i: usize = 0;
        while i < ids.len()
            invariant
                0 <= i <= ids@.len(),
                self.wf(),
                self@ == without_all(all, views(ids@).take(i as int)),
            decreases ids@.len() - i,
        {
            proof {
                lemma_without_step(all, views(ids@), i as int);
            }
            self.remove(ids[i].as_slice());
            i += 1;
        }
        assert(views(ids@).take(ids@.len() as int) =~= views(ids@));
    }

    /// The entries, in the order in which their keys were added.
    pub fn pairs(&self) -> (r: Vec<(&Vec<u8>, &V)>)
        ensures
            r@.len() == self@.len(),
            forall|i: int| 0 <= i < r@.len() ==> (#[trigger] r@[i]).0@ == self@[i].0 && *r@[i].1 == self@[i].1,
    {
        let mut out: Vec<(&Vec<u8>, &V)> = Vec::new();
        let mut p: usize = 0;
        let ghost all = self.slots@;
        assert(all.take(0) =~= Seq::<Option<Slot<V>>>::empty());
        while p < self.slots.len()
            invariant
                0 <= p <= self.slots@.len(),
                all == self.slots@,
                out@.len() == live_of(all.take(p as int)).len(),
                forall|i: int| 0 <= i < out@.len() ==> (#[trigger] out@[i]).0@ == live_of(all.take(p as int))[i].0
                    && *out@[i].1 == live_of(all.take(p as int))[i].1,
            decreases self.slots@.len() - p,
        {
            proof {
                assert(all.take(p + 1).drop_last() =~= all.take(p as int));
            }
            if let Some(s) = &self.slots[p] {
                out.push((&s.id, &s.value));
            }
            p += 1;
        }
        assert(all.take(all.len() as int) =~= all);
        out
    }

    /// The keys, in the order in which they were added.
    pub fn ids(&self) -> (r: Vec<Vec<u8>>)
        ensures
            views(r@) == keys_of(self@),
    {
        let pairs: Vec<(&Vec<u8>, &V)> = self.pairs();
        let mut out: Vec<Vec<u8>> = Vec::new();
        let mut i: usize = 0;
        while i < pairs.len()
            invariant
                0 <= i <= pairs@.len(),
                pairs@.len() == self@.len(),
                forall|j: int| 0 <= j < pairs@.len() ==> (#[trigger] pairs@[j]).0@ == self@[j].0,
                out@.len() == i,
                forall|j: int| 0 <= j < i ==> (#[trigger] out@[j])@ == self@[j].0,
            decreases pairs@.len() - i,
        {
            out.push(copied(pairs[i].0.as_slice()));
            i += 1;
        }
        assert(views(out@) =~= keys_of(self@));
        out
    }
}

} // verus!
