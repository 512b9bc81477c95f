//! Byte strings and lists of byte strings.
use vstd::prelude::*;
use vstd::slice::slice_to_vec;
use vstd::slice::slice_subrange;

verus! {

/// The contents of a list of byte strings.
pub open spec fn views(list: Seq<Vec<u8>>) -> Seq<Seq<u8>> {
    list.map_values(|v: Vec<u8>| v@)
}

/// Whether two byte strings hold the same bytes.
pub fn same_bytes(a: &[u8], b: &[u8]) -> (r: bool)
    ensures
        r == (a@ == b@),
{
    if a.len() != b.len() {
        return false;
    }
    let mut i: usize = 0;
    while i < a.len()
        invariant
            a@.len() == b@.len(),
            0 <= i <= a@.len(),
            forall|j: int| 0 <= j < i ==> a@[j] == b@[j],
        decreases a@.len() - i,
    {
        if a[i] != b[i] {
            return false;
        }
        i += 1;
    }
    assert(a@ =~= b@);
    true
}

/// A copy of a byte string.
pub fn copied(a: &[u8]) -> (r: Vec<u8>)
    ensures
        r@ == a@,
{
    slice_to_vec(a)
}

/// The bytes of `a` from position `from` up to, not including, `to`.
pub fn slice_of(a: &[u8], from: usize, to: usize) -> (r: Vec<u8>)
    requires
        from <= to <= a@.len(),
    ensures
        r@ == a@.subrange(from as int, to as int),
{
    slice_to_vec(slice_subrange(a, from, to))
}

/// `a` followed by `b`.
pub fn joined(a: &[u8], b: &[u8]) -> (r: Vec<u8>)
    ensures
        r@ == a@ + b@,
{
    let mut out: Vec<u8> = slice_to_vec(a);
    let ghost start = out@;
    let mut i: usize = 0;
    while i < b.len()
        invariant
            0 <= i <= b@.len(),
            out@ == start + b@.subrange(0, i as int),
        decreases b@.len() - i,
    {
        out.push(b[i]);
        i += 1;
        assert(start + b@.subrange(0, i as int) =~= (start + b@.subrange(0, i - 1)).push(b@[i - 1]));
    }
    assert(b@.subrange(0, b@.len() as int) =~= b@);
    out
}

/// Whether `list` holds a byte string equal to `x`.
pub fn holds(list: &[Vec<u8>], x: &[u8]) -> (r: bool)
    ensures
        r == views(list@).contains(x@),
{
    let mut i: usize = 0;
    while i < list.len()
        invariant
            0 <= i <= list@.len(),
            forall|j: int| 0 <= j < i ==> views(list@)[j] != x@,
        decreases list@.len() - i,
    {
        if same_bytes(list[i].as_slice(), x) {
            assert(views(list@)[i as int] == x@);
            return true;
        }
        i += 1;
    }
    assert(!views(list@).contains(x@));
    false
}

/// The contents of a byte string that may be absent.
pub open spec fn opt_view(o: Option<Vec<u8>>) -> Option<Seq<u8>> {
    match o {
        Some(v) => Some(v@),
        None => None,
    }
}

/// The contents of a list of byte strings that may be absent.
pub open spec fn opt_views(o: Option<Vec<Vec<u8>>>) -> Option<Seq<Seq<u8>>> {
    match o {
        Some(list) => Some(views(list@)),
        None => None,
    }
}

/// Whether there is a byte string and it equals `x`.
pub fn is_some_of(o: &Option<Vec<u8>>, x: &[u8]) -> (r: bool)
    ensures
        r == (opt_view(*o) == Some(x@)),
{
    match o {
        Some(v) => same_bytes(v.as_slice(), x),
        None => false,
    }
}

/// A copy of a byte string that may be absent.
pub fn copied_opt(o: &Option<Vec<u8>>) -> (r: Option<Vec<u8>>)
    ensures
        opt_view(r) == opt_view(*o),
{
    match o {
        Some(v) => Some(copied(v.as_slice())),
        None => None,
    }
}

/// A copy of a list of byte strings.
pub fn copied_list(list: &Vec<Vec<u8>>) -> (r: Vec<Vec<u8>>)
    ensures
        views(r@) == views(list@),
{
    let mut out: Vec<Vec<u8>> = Vec::new();
    let mut i: usize = 0;
    while i < list.len()
        invariant
            0 <= i <= list@.len(),
            views(out@) == views(list@).subrange(0, i as int),
        decreases list@.len() - i,
    {
        let item: Vec<u8> = copied(list[i].as_slice());
        let ghost before = out@;
        out.push(item);
        i += 1;
        assert(views(out@) =~= views(before).push(item@));
        assert(views(list@).subrange(0, i as int) =~= views(list@).subrange(0, i - 1).push(views(list@)[i - 1]));
    }
    assert(views(list@).subrange(0, list@.len() as int) =~= views(list@));
    out
}

/// Whether `a` comes before `b` in the order of byte strings.
pub open spec fn comes_before(a: Seq<u8>, b: Seq<u8>) -> bool
    decreases a.len(),
{
    if b.len() == 0 {
        false
    } else if a.len() == 0 {
        true
    } else if a[0] != b[0] {
        a[0] < b[0]
    } else {
        comes_before(a.skip(1), b.skip(1))
    }
}

/// The order of byte strings is a strict order, and any two that differ are
/// in order one way or the other.
pub proof fn law_byte_order(a: Seq<u8>, b: Seq<u8>, c: Seq<u8>)
    ensures
        !comes_before(a, a),
        comes_before(a, b) && comes_before(b, c) ==> comes_before(a, c),
        a != b ==> comes_before(a, b) || comes_before(b, a),
    decreases a.len(),
{
    if a.len() > 0 {
        if b.len() > 0 {
            law_byte_order(a.skip(1), b.skip(1), if c.len() > 0 { c.skip(1) } else { c });
            if a[0] == b[0] && a.skip(1) == b.skip(1) {
                assert(a =~= b) by {
                    assert forall|i: int| 0 < i < a.len() implies a[i] == b[i] by {
                        assert(a[i] == a.skip(1)[i - 1]);
                        assert(b[i] == b.skip(1)[i - 1]);
                    }
                    assert(a.len() == a.skip(1).len() + 1);
                    assert(b.len() == b.skip(1).len() + 1);
                }
            }
        } else {
            law_byte_order(a.skip(1), a.skip(1), a.skip(1));
        }
    } else if b.len() == 0 {
        assert(a =~= b);
    }
}

/// Whether `a` comes before `b` in the order of byte strings.
pub fn is_before(a: &[u8], b: &[u8]) -> (r: bool)
    ensures
        r == comes_before(a@, b@),
{
    let mut i: usize = 0;
    assert(a@.skip(0) =~= a@);
    assert(b@.skip(0) =~= b@);
    while i < a.len() && i < b.len()
        invariant
            0 <= i <= a@.len(),
            i <= b@.len(),
            comes_before(a@, b@) == comes_before(a@.skip(i as int), b@.skip(i as int)),
        decreases a@.len() - i,
    {
        if a[i] != b[i] {
            return a[i] < b[i];
        }
        assert(a@.skip(i as int).skip(1) =~= a@.skip(i + 1));
        assert(b@.skip(i as int).skip(1) =~= b@.skip(i + 1));
        i += 1;
    }
    i < b.len()
}

/// Whether a list is in the order of byte strings, with nothing in it twice.
pub open spec fn in_byte_order(list: Seq<Seq<u8>>) -> bool {
    forall|i: int, j: int|
        0 <= i < j < list.len() ==> comes_before(#[trigger] list[i], #[trigger] list[j])
}

/// Puts `item` into its place in a list that is in order, unless it is there.
pub fn insert_in_order(list: &mut Vec<Vec<u8>>, item: Vec<u8>)
    requires
        in_byte_order(views(old(list)@)),
    ensures
        in_byte_order(views(final(list)@)),
        forall|x: Seq<u8>|
            #[trigger] views(final(list)@).contains(x) <==> views(old(list)@).contains(x) || x == item@,
{
    let ghost before = views(list@);
    let mut i: usize = 0;
    while i < list.len() && is_before(list[i].as_slice(), item.as_slice())
        invariant
            0 <= i <= list@.len(),
            views(list@) == before,
            forall|j: int| 0 <= j < i ==> comes_before(#[trigger] before[j], item@),
        decreases list@.len() - i,
    {
        i += 1;
    }
    if i < list.len() && same_bytes(list[i].as_slice(), item.as_slice()) {
        assert(before[i as int] == item@);
        assert(before.contains(item@));
        return;
    }
    let ghost new = item@;
    list.insert(i, item);
    proof {
        let after = views(list@);
        assert(after =~= before.insert(i as int, new));
        assert forall|a: int, b: int| 0 <= a < b < after.len() implies comes_before(
            #[trigger] after[a],
            #[trigger] after[b],
        ) by {
            let pa = if a < i { a } else { a - 1 };
            let pb = if b < i { b } else { b - 1 };
            if a != i && b != i {
                assert(after[a] == before[pa] && after[b] == before[pb]);
            } else if b == i {
                assert(after[a] == before[a]);
            } else {
                assert(after[b] == before[b - 1]);
                law_byte_order(before[i as int], new, new);
                if b - 1 > i {
                    assert(comes_before(before[i as int], before[b - 1]));
                    law_byte_order(new, before[i as int], before[b - 1]);
                }
            }
        }
        assert forall|x: Seq<u8>| #[trigger] after.contains(x) <==> before.contains(x) || x == new by {
            if after.contains(x) {
                let k = after.index_of(x);
                if k < i {
                    assert(before[k] == x);
                } else if k > i {
                    assert(before[k - 1] == x);
                }
            }
            if before.contains(x) {
                let k = before.index_of(x);
                if k < i {
                    assert(after[k] == x);
                } else {
                    assert(after[k + 1] == x);
                }
            }
            if x == new {
                assert(after[i as int] == x);
            }
        }
    }
}

/// The byte strings of a list, each at the place of its first occurrence.
pub open spec fn distinct_of(list: Seq<Seq<u8>>) -> Seq<Seq<u8>>
    decreases list.len(),
{
    if list.len() == 0 {
        Seq::empty()
    } else {
        let rest = distinct_of(list.drop_last());
        if rest.contains(list.last()) {
            rest
        } else {
            rest.push(list.last())
        }
    }
}

/// What [`distinct_of`] keeps: the same byte strings, none of them twice.
pub proof fn law_distinct_of(list: Seq<Seq<u8>>)
    ensures
        distinct_of(list).no_duplicates(),
        forall|x: Seq<u8>| distinct_of(list).contains(x) <==> list.contains(x),
    decreases list.len(),
{
    if list.len() > 0 {
        let rest = list.drop_last();
        law_distinct_of(rest);
        let d = distinct_of(list);
        assert forall|x: Seq<u8>| d.contains(x) implies list.contains(x) by {
            let i = d.index_of(x);
            if i < distinct_of(rest).len() {
                assert(distinct_of(rest)[i] == x);
                assert(distinct_of(rest).contains(x));
                assert(rest.contains(x));
                let k = rest.index_of(x);
                assert(list[k] == x);
            } else {
                assert(list[list.len() - 1] == x);
            }
        }
        assert forall|x: Seq<u8>| list.contains(x) implies d.contains(x) by {
            let i = list.index_of(x);
            if i < rest.len() {
                assert(rest[i] == x);
                assert(rest.contains(x));
                assert(distinct_of(rest).contains(x));
                let k = distinct_of(rest).index_of(x);
                assert(d[k] == x);
            } else if !distinct_of(rest).contains(x) {
                assert(d[d.len() - 1] == x);
            }
        }
    }
}

/// How a filtered prefix grows by one item.
pub proof fn lemma_filter_step<A>(s: Seq<A>, keep: spec_fn(A) -> bool, i: int)
    requires
        0 <= i < s.len(),
    ensures
        s.take(i + 1).filter(keep) == (if keep(s[i]) {
            s.take(i).filter(keep).push(s[i])
        } else {
            s.take(i).filter(keep)
        }),
{
    reveal(Seq::filter);
    assert(s.take(i + 1).drop_last() =~= s.take(i));
    assert(s.take(i + 1).last() == s[i]);
}

/// What filtering an empty prefix, and the whole of a sequence, gives.
pub proof fn lemma_filter_ends<A>(s: Seq<A>, keep: spec_fn(A) -> bool)
    ensures
        s.take(0).filter(keep) == Seq::<A>::empty(),
        s.take(s.len() as int) == s,
{
    reveal(Seq::filter);
    assert(s.take(0) =~= Seq::<A>::empty());
    assert(s.take(s.len() as int) =~= s);
}

/// Filtering by a test that no item meets keeps none.
pub proof fn lemma_filter_none<A>(s: Seq<A>, keep: spec_fn(A) -> bool)
    requires
        forall|i: int| 0 <= i < s.len() ==> !keep(#[trigger] s[i]),
    ensures
        s.filter(keep) == Seq::<A>::empty(),
    decreases s.len(),
{
    reveal(Seq::filter);
    if s.len() > 0 {
        lemma_filter_none(s.drop_last(), keep);
    }
}

/// Filtering by a test that every item meets keeps every item.
pub proof fn lemma_filter_all<A>(s: Seq<A>, keep: spec_fn(A) -> bool)
    requires
        forall|i: int| 0 <= i < s.len() ==> keep(#[trigger] s[i]),
    ensures
        s.filter(keep) == s,
    decreases s.len(),
{
    reveal(Seq::filter);
    if s.len() > 0 {
        lemma_filter_all(s.drop_last(), keep);
        assert(s.drop_last().push(s.last()) =~= s);
    }
}

/// What a filtered sequence holds.
pub proof fn lemma_filter_holds<A>(s: Seq<A>, keep: spec_fn(A) -> bool)
    ensures
        forall|x: A| #[trigger] s.filter(keep).contains(x) <==> s.contains(x) && keep(x),
        s.filter(keep).len() <= s.len(),
    decreases s.len(),
{
    reveal(Seq::filter);
    if s.len() > 0 {
        let rest = s.drop_last();
        lemma_filter_holds(rest, keep);
        let f = s.filter(keep);
        let g = rest.filter(keep);
        assert forall|x: A| #[trigger] f.contains(x) <==> s.contains(x) && keep(x) by {
            if f.contains(x) {
                let i = f.index_of(x);
                if i < g.len() {
                    assert(g[i] == x);
                    assert(g.contains(x));
                    let k = rest.index_of(x);
                    assert(s[k] == x);
                } else {
                    assert(s[s.len() - 1] == x);
                }
            }
            if s.contains(x) && keep(x) {
                let i = s.index_of(x);
                if i < rest.len() {
                    assert(rest[i] == x);
                    assert(rest.contains(x));
                    assert(g.contains(x));
                    let k = g.index_of(x);
                    assert(f[k] == x);
                } else {
                    assert(f[f.len() - 1] == x);
                }
            }
        }
    }
}

/// Two tests that agree on every item of a sequence keep the same items.
pub proof fn lemma_filter_agree<A>(s: Seq<A>, one: spec_fn(A) -> bool, other: spec_fn(A) -> bool)
    requires
        forall|i: int| 0 <= i < s.len() ==> one(#[trigger] s[i]) == other(s[i]),
    ensures
        s.filter(one) == s.filter(other),
    decreases s.len(),
{
    reveal(Seq::filter);
    if s.len() > 0 {
        let rest = s.drop_last();
        assert forall|i: int| 0 <= i < rest.len() implies one(#[trigger] rest[i]) == other(rest[i]) by {
            assert(rest[i] == s[i]);
        }
        lemma_filter_agree(rest, one, other);
        assert(one(s[s.len() - 1]) == other(s[s.len() - 1]));
    }
}

/// Filtering before or after each item is mapped, by tests that agree.
pub proof fn lemma_filter_mapped<A, B>(
    s: Seq<A>,
    f: spec_fn(A) -> B,
    before: spec_fn(A) -> bool,
    after: spec_fn(B) -> bool,
)
    requires
        forall|a: A| #[trigger] before(a) == after(f(a)),
    ensures
        s.filter(before).map_values(f) == s.map_values(f).filter(after),
    decreases s.len(),
{
    reveal(Seq::filter);
    if s.len() > 0 {
        let rest = s.drop_last();
        lemma_filter_mapped(rest, f, before, after);
        assert(s.map_values(f).drop_last() =~= rest.map_values(f));
        assert(s.map_values(f).last() == f(s.last()));
        assert(before(s.last()) == after(f(s.last())));
        if before(s.last()) {
            assert(rest.filter(before).push(s.last()).map_values(f) =~= rest.filter(before).map_values(f).push(
                f(s.last()),
            ));
        }
    } else {
        assert(s.filter(before).map_values(f) =~= s.map_values(f).filter(after));
    }
}

/// Of two byte strings the one comes first that is smaller at the first place
/// where they differ, or that ends there.
pub proof fn law_first_difference_decides(a: Seq<u8>, b: Seq<u8>, k: int)
    requires
        0 <= k <= a.len(),
        k <= b.len(),
        forall|i: int| 0 <= i < k ==> #[trigger] a[i] == b[i],
    ensures
        k < a.len() && k < b.len() && a[k] < b[k] ==> comes_before(a, b),
        k < a.len() && k < b.len() && a[k] > b[k] ==> !comes_before(a, b),
        k == a.len() && k < b.len() ==> comes_before(a, b),
        k == b.len() ==> !comes_before(a, b),
    decreases k,
{
    if k > 0 {
        let x = a.skip(1);
        let y = b.skip(1);
        assert(a[0] == b[0]);
        assert forall|i: int| 0 <= i < k - 1 implies #[trigger] x[i] == y[i] by {
            assert(a[i + 1] == b[i + 1]);
        }
        law_first_difference_decides(x, y, k - 1);
    }
}

/// A list in which nothing is twice stays as it is, and of what is there again
/// the first stays, so that the others keep their places.
pub proof fn law_first_of_each_stays(list: Seq<Seq<u8>>, x: Seq<u8>)
    ensures
        list.contains(x) ==> distinct_of(list.push(x)) == distinct_of(list),
        !list.contains(x) ==> distinct_of(list.push(x)) == distinct_of(list) + seq![x],
        distinct_of(Seq::empty()).len() == 0,
{
    assert(list.push(x).drop_last() =~= list);
    law_distinct_of(list);
    assert(distinct_of(list).contains(x) <==> list.contains(x));
    assert(distinct_of(list).push(x) =~= distinct_of(list) + seq![x]);
}

} // verus!
