//! Sets of message ids that keep the order in which the ids came.
use vstd::prelude::*;
use crate::id_map::IdMap;

verus! {

/// An insertion-ordered set of ids, with lookups that do not slow down as it
/// grows.
pub struct IdQueue {
    map: IdMap<()>,
}

/// The test that an id is not `id`.
pub open spec fn other_than(id: Seq<u8>) -> spec_fn(Seq<u8>) -> bool {
    |x: Seq<u8>| x != id
}

/// The ids other than `id`.
pub open spec fn ids_without(ids: Seq<Seq<u8>>, id: Seq<u8>) -> Seq<Seq<u8>> {
    ids.filter(other_than(id))
}

/// The ids after `id` was added, unless it was there.
pub open spec fn ids_with(ids: Seq<Seq<u8>>, id: Seq<u8>) -> Seq<Seq<u8>> {
    if ids.contains(id) {
        ids
    } else {
        ids.push(id)
    }
}

/// An id that is added is there afterwards, behind those that were; nothing else
/// comes or goes, and an id that was there changes nothing.
pub proof fn law_one_more_id(ids: Seq<Seq<u8>>, id: Seq<u8>)
    ensures
        forall|x: Seq<u8>| #[trigger] ids_with(ids, id).contains(x) <==> ids.contains(x) || x == id,
        ids_with(ids, id).len() == ids.len() + (if ids.contains(id) {
            0int
        } else {
            1int
        }),
        ids_with(ids, id).take(ids.len() as int) == ids,
        ids.no_duplicates() ==> ids_with(ids, id).no_duplicates(),
{
    let more = ids_with(ids, id);
    assert(more.take(ids.len() as int) =~= ids);
    assert forall|x: Seq<u8>| #[trigger] more.contains(x) <==> ids.contains(x) || x == id by {
        if more.contains(x) {
            let k = more.index_of(x);
            if k < ids.len() {
                assert(ids[k] == x);
            }
        }
        if ids.contains(x) {
            let k = ids.index_of(x);
            assert(more[k] == x);
        }
        if x == id && !ids.contains(id) {
            assert(more[ids.len() as int] == id);
        }
    }
}

/// An id that is taken out is not there afterwards, and all the others are, in
/// their order.
pub proof fn law_one_id_less(ids: Seq<Seq<u8>>, id: Seq<u8>)
    ensures
        forall|x: Seq<u8>| #[trigger] ids_without(ids, id).contains(x) <==> ids.contains(x) && x != id,
        !ids.contains(id) ==> ids_without(ids, id) == ids,
        forall|a: Seq<Seq<u8>>, b: Seq<Seq<u8>>| ids == #[trigger] (a.push(id) + b) && !a.contains(id) && !b.contains(id)
            ==> ids_without(ids, id) == a + b,
{
    crate::octets::lemma_filter_holds(ids, other_than(id));
    if !ids.contains(id) {
        crate::octets::lemma_filter_all(ids, other_than(id));
    }
    assert forall|a: Seq<Seq<u8>>, b: Seq<Seq<u8>>| ids == #[trigger] (a.push(id) + b) && !a.contains(id) && !b.contains(
        id,
    ) implies ids_without(ids, id) == a + b by {
        Seq::filter_distributes_over_add(a.push(id), b, other_than(id));
        crate::octets::lemma_filter_all(a, other_than(id));
        crate::octets::lemma_filter_all(b, other_than(id));
        reveal(Seq::filter);
        assert(a.push(id).drop_last() =~= a);
    }
}

proof fn lemma_keys<V>(entries: Seq<(Seq<u8>, V)>, id: Seq<u8>)
    ensures
        crate::id_map::keys_of(entries).contains(id) <==> crate::id_map::has_key(entries, id),
{
    let keys = crate::id_map::keys_of(entries);
    if keys.contains(id) {
        let i = keys.index_of(id);
        assert(entries[i].0 == id);
    }
    if crate::id_map::has_key(entries, id) {
        let i = choose|i: int| 0 <= i < entries.len() && (#[trigger] entries[i]).0 == id;
        assert(keys[i] == id);
    }
}

proof fn lemma_keys_without<V>(entries: Seq<(Seq<u8>, V)>, id: Seq<u8>)
    ensures
        crate::id_map::keys_of(crate::id_map::without(entries, id)) == ids_without(
            crate::id_map::keys_of(entries),
            id,
        ),
    decreases entries.len(),
{
    reveal(Seq::filter);
    let keys = crate::id_map::keys_of(entries);
    let kept = crate::id_map::without(entries, id);
    if entries.len() > 0 {
        let rest = entries.drop_last();
        lemma_keys_without(rest, id);
        assert(keys.drop_last() =~= crate::id_map::keys_of(rest));
        assert(keys.last() == entries.last().0);
        let kept_rest = crate::id_map::without(rest, id);
        if entries.last().0 != id {
            assert(kept =~= kept_rest.push(entries.last()));
            assert(crate::id_map::keys_of(kept) =~= crate::id_map::keys_of(kept_rest).push(entries.last().0));
        }
    }
    assert(crate::id_map::keys_of(kept) =~= ids_without(keys, id));
}

impl IdQueue {
    /// The ids, in the order in which they were added.
    pub closed spec fn view(&self) -> Seq<Seq<u8>> {
        crate::id_map::keys_of(self.map@)
    }

    /// What holds of every queue that this module hands out.
    pub closed spec fn wf(&self) -> bool {
        self.map.wf()
    }

    /// No id is in a queue twice.
    pub proof fn law_no_duplicates(&self)
        requires
            self.wf(),
        ensures
            self@.no_duplicates(),
    {
        self.map.lemma_distinct();
        assert forall|i: int, j: int| 0 <= i < self@.len() && 0 <= j < self@.len() && i != j implies self@[i]
            != self@[j] by {
            if i < j {
                assert(self.map@[i].0 != self.map@[j].0);
            } else {
                assert(self.map@[j].0 != self.map@[i].0);
            }
        }
    }

    /// An empty queue.
    pub fn new() -> (r: Self)
        ensures
            r.wf(),
            r@ == Seq::<Seq<u8>>::empty(),
    {
        let r: IdQueue = IdQueue { map: IdMap::new() };
        assert(r@ =~= Seq::<Seq<u8>>::empty());
        r
    }

    /// Adds `id` at the end unless it is there. Says whether it was added.
    pub fn push_unique(&mut self, id: Vec<u8>) -> (r: bool)
        requires
            old(self).wf(),
        ensures
            final(self).wf(),
            r == !old(self)@.contains(id@),
            final(self)@ == ids_with(old(self)@, id@),
    {
        proof {
            lemma_keys(self.map@, id@);
        }
        let added: bool = self.map.push_new(id, ());
        assert(added ==> self@ =~= old(self)@.push(id@));
        added
    }

    /// Takes `id` out. Says whether it was there.
    pub fn remove(&mut self, id: &[u8]) -> (r: bool)
        requires
            old(self).wf(),
        ensures
            final(self).wf(),
            r == old(self)@.contains(id@),
            final(self)@ == ids_without(old(self)@, id@),
    {
        proof {
            lemma_keys(self.map@, id@);
            lemma_keys_without(self.map@, id@);
        }
        self.map.remove(id).is_some()
    }

    /// Whether `id` is in the queue.
    pub fn contains(&self, id: &[u8]) -> (r: bool)
        requires
            self.wf(),
        ensures
            r == self@.contains(id@),
    {
        proof {
            lemma_keys(self.map@, id@);
        }
        self.map.contains(id)
    }

    /// The number of ids.
    pub fn len(&self) -> (r: usize)
        requires
            self.wf(),
        ensures
            r == self@.len(),
    {
        self.map.len()
    }

    /// Whether there are no ids.
    pub fn is_empty(&self) -> (r: bool)
        requires
            self.wf(),
        ensures
            r == (self@.len() == 0),
    {
        self.map.len() == 0
    }

    /// The ids in the order in which they were added.
    pub fn iter(&self) -> (r: Vec<&Vec<u8>>)
        ensures
            r@.map_values(|x: &Vec<u8>| x@) == self@,
    {
        let pairs: Vec<(&Vec<u8>, &())> = self.map.pairs();
        let mut out: Vec<&Vec<u8>> = Vec::new();
        let mut i: usize = 0;
        while i < pairs.len()
            invariant
                0 <= i <= pairs@.len(),
                pairs@.len() == self.map@.len(),
                forall|j: int| 0 <= j < pairs@.len() ==> (#[trigger] pairs@[j]).0@ == self.map@[j].0,
                out@.len() == i,
                forall|j: int| 0 <= j < i ==> (#[trigger] out@[j])@ == self.map@[j].0,
            decreases pairs@.len() - i,
        {
            out.push(pairs[i].0);
            i += 1;
        }
        assert(out@.map_values(|x: &Vec<u8>| x@) =~= self@);
        out
    }

    /// A copy of the ids in the order in which they were added.
    pub fn to_vec(&self) -> (r: Vec<Vec<u8>>)
        ensures
            crate::octets::views(r@) == self@,
    {
        self.map.ids()
    }
}

impl Default for IdQueue {
    fn default() -> (r: Self)
        ensures
            r.wf(),
            r@ == Seq::<Seq<u8>>::empty(),
    {
        IdQueue::new()
    }
}

} // verus!
