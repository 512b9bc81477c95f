//! A stable sort of positions by their keys.
use vstd::prelude::*;

verus! {

/// Whether position `a` comes before position `b`: by key, and among equal
/// keys by position.
pub open spec fn precedes(keys: Seq<u128>, a: int, b: int) -> bool {
    keys[a] < keys[b] || (keys[a] == keys[b] && a < b)
}

/// Whether `order` lists every position of `keys` once, smallest key first,
/// equal keys in the order in which they stand.
pub open spec fn stable_order(keys: Seq<u128>, order: Seq<usize>) -> bool {
    &&& order.len() == keys.len()
    &&& forall|i: int| 0 <= i < order.len() ==> (#[trigger] order[i]) < keys.len()
    &&& forall|i: int, j: int|
        0 <= i < j < order.len() ==> precedes(keys, #[trigger] order[i] as int, #[trigger] order[j] as int)
    &&& forall|a: usize| a < keys.len() ==> #[trigger] order.contains(a)
}

spec fn ordered_range(keys: Seq<u128>, order: Seq<usize>, lo: int, hi: int) -> bool {
    &&& order.len() == hi - lo
    &&& forall|i: int| 0 <= i < order.len() ==> lo <= (#[trigger] order[i]) < hi
    &&& forall|i: int, j: int|
        0 <= i < j < order.len() ==> precedes(keys, #[trigger] order[i] as int, #[trigger] order[j] as int)
    &&& forall|a: usize| lo <= a < hi ==> #[trigger] order.contains(a)
}

fn merge(keys: &Vec<u128>, left: Vec<usize>, right: Vec<usize>, Ghost(lo): Ghost<int>, Ghost(mid): Ghost<int>, Ghost(hi): Ghost<int>) -> (out: Vec<usize>)
    requires
        0 <= lo <= mid <= hi <= keys@.len(),
        ordered_range(keys@, left@, lo, mid),
        ordered_range(keys@, right@, mid, hi),
    ensures
        ordered_range(keys@, out@, lo, hi),
{
    let mut out: Vec<usize> = Vec::new();
    let mut i: usize = 0;
    let mut j: usize = 0;
    while i < left.len() || j < right.len()
        invariant
            0 <= lo <= mid <= hi <= keys@.len(),
            ordered_range(keys@, left@, lo, mid),
            ordered_range(keys@, right@, mid, hi),
            0 <= i <= left@.len(),
            0 <= j <= right@.len(),
            out@.len() == i + j,
            forall|a: int| 0 <= a < out@.len() ==> lo <= (#[trigger] out@[a]) < hi,
            forall|a: int, b: int|
                0 <= a < b < out@.len() ==> precedes(keys@, #[trigger] out@[a] as int, #[trigger] out@[b] as int),
            forall|a: int, b: int|
                0 <= a < out@.len() && i <= b < left@.len() ==> precedes(
                    keys@,
                    #[trigger] out@[a] as int,
                    #[trigger] left@[b] as int,
                ),
            forall|a: int, b: int|
                0 <= a < out@.len() && j <= b < right@.len() ==> precedes(
                    keys@,
                    #[trigger] out@[a] as int,
                    #[trigger] right@[b] as int,
                ),
            forall|a: int| 0 <= a < i ==> out@.contains(#[trigger] left@[a]),
            forall|a: int| 0 <= a < j ==> out@.contains(#[trigger] right@[a]),
        decreases left@.len() + right@.len() - i - j,
    {
        let ghost before = out@;
        let from_left: bool = if i >= left.len() {
            false
        } else if j >= right.len() {
            true
        } else {
            keys[left[i]] <= keys[right[j]]
        };
        if from_left {
            let x: usize = left[i];
            out.push(x);
            i += 1;
        } else {
            let x: usize = right[j];
            out.push(x);
            j += 1;
        }
        proof {
            let x = out@.last();
            assert(out@ =~= before.push(x));
            assert(out@[before.len() as int] == x);
            assert forall|y: usize| before.contains(y) implies out@.contains(y) by {
                let k = before.index_of(y);
                assert(out@[k] == y);
            }
            assert(out@.contains(x));
        }
    }
    assert forall|a: usize| lo <= a < hi implies #[trigger] out@.contains(a) by {
        if a < mid {
            assert(left@.contains(a));
            let k = left@.index_of(a);
            assert(out@.contains(left@[k]));
        } else {
            assert(right@.contains(a));
            let k = right@.index_of(a);
            assert(out@.contains(right@[k]));
        }
    }
    out
}

fn sort_range(keys: &Vec<u128>, lo: usize, hi: usize) -> (out: Vec<usize>)
    requires
        lo <= hi <= keys@.len(),
    ensures
        ordered_range(keys@, out@, lo as int, hi as int),
    decreases hi - lo,
{
    let mut out: Vec<usize> = Vec::new();
    if hi - lo == 0 {
        return out;
    }
    if hi - lo == 1 {
        out.push(lo);
        assert(out@[0] == lo);
        return out;
    }
    let mid: usize = lo + (hi - lo) / 2;
    let left: Vec<usize> = sort_range(keys, lo, mid);
    let right: Vec<usize> = sort_range(keys, mid, hi);
    merge(keys, left, right, Ghost(lo as int), Ghost(mid as int), Ghost(hi as int))
}

/// The positions of `keys` in stable order.
pub fn sorted_positions(keys: &Vec<u128>) -> (order: Vec<usize>)
    ensures
        stable_order(keys@, order@),
{
    sort_range(keys, 0, keys.len())
}

/// Where a key belongs in an order: behind all that are not greater.
proof fn lemma_place(keys: Seq<u128>, order: Seq<usize>, key: u128, n: int) -> (p: int)
    requires
        stable_order(keys, order),
        0 <= n <= order.len(),
        forall|i: int| n <= i < order.len() ==> keys[#[trigger] order[i] as int] > key,
    ensures
        0 <= p <= n,
        forall|i: int| 0 <= i < p ==> keys[#[trigger] order[i] as int] <= key,
        forall|i: int| p <= i < order.len() ==> keys[#[trigger] order[i] as int] > key,
    decreases n,
{
    if n == 0 {
        0
    } else if keys[order[n - 1] as int] > key {
        lemma_place(keys, order, key, n - 1)
    } else {
        assert forall|i: int| 0 <= i < n implies keys[#[trigger] order[i] as int] <= key by {
            if i < n - 1 {
                assert(precedes(keys, order[i] as int, order[n - 1] as int));
            }
        }
        n
    }
}

/// Every list of keys has a stable order.
pub proof fn law_stable_order_exists(keys: Seq<u128>)
    requires
        keys.len() <= usize::MAX,
    ensures
        exists|order: Seq<usize>| stable_order(keys, order),
    decreases keys.len(),
{
    if keys.len() == 0 {
        assert(stable_order(keys, Seq::<usize>::empty()));
    } else {
        let few = keys.drop_last();
        let x = (keys.len() - 1) as usize;
        law_stable_order_exists(few);
        let order = choose|order: Seq<usize>| stable_order(few, order);
        let p = lemma_place(few, order, keys.last(), order.len() as int);
        let more = order.insert(p, x);
        assert(more[p] == x);
        assert forall|i: int, j: int| 0 <= i < j < more.len() implies precedes(
            keys,
            #[trigger] more[i] as int,
            #[trigger] more[j] as int,
        ) by {
            let a = if i < p {
                i
            } else {
                i - 1
            };
            let b = if j < p {
                j
            } else {
                j - 1
            };
            if i != p {
                assert(more[i] == order[a]);
            }
            if j != p {
                assert(more[j] == order[b]);
            }
            if i != p && j != p {
                assert(precedes(few, order[a] as int, order[b] as int));
            }
        }
        assert forall|a: usize| a < keys.len() implies #[trigger] more.contains(a) by {
            if a != x {
                assert(order.contains(a));
                let k = order.index_of(a);
                if k < p {
                    assert(more[k] == a);
                } else {
                    assert(more[k + 1] == a);
                }
            }
        }
        assert forall|i: int| 0 <= i < more.len() implies (#[trigger] more[i]) < keys.len() by {
            if i < p {
                assert(more[i] == order[i]);
            } else if i > p {
                assert(more[i] == order[i - 1]);
            }
        }
        assert(stable_order(keys, more));
    }
}

/// There is only one stable order of a list of keys.
pub proof fn law_stable_order_is_unique(keys: Seq<u128>, a: Seq<usize>, b: Seq<usize>)
    requires
        stable_order(keys, a),
        stable_order(keys, b),
    ensures
        a == b,
{
    assert forall|n: int| 0 <= n <= a.len() implies #[trigger] a.take(n) == b.take(n) by {
        lemma_same_prefix(keys, a, b, n);
    }
    assert(a.take(a.len() as int) == b.take(a.len() as int));
    assert(a.take(a.len() as int) =~= a);
    assert(b.take(a.len() as int) =~= b);
}

proof fn lemma_same_prefix(keys: Seq<u128>, a: Seq<usize>, b: Seq<usize>, n: int)
    requires
        stable_order(keys, a),
        stable_order(keys, b),
        0 <= n <= a.len(),
    ensures
        a.take(n) == b.take(n),
    decreases n,
{
    if n > 0 {
        lemma_same_prefix(keys, a, b, n - 1);
        let x = a[n - 1];
        let y = b[n - 1];
        assert(b.contains(x));
        let i = b.index_of(x);
        assert(a.contains(y));
        let j = a.index_of(y);
        assert forall|k: int| 0 <= k < n - 1 implies a[k] == b[k] by {
            assert(a.take(n - 1)[k] == b.take(n - 1)[k]);
        }
        if i < n - 1 {
            assert(a[i] == x);
            assert(precedes(keys, a[i] as int, a[n - 1] as int));
        }
        if j < n - 1 {
            assert(b[j] == y);
            assert(precedes(keys, b[j] as int, b[n - 1] as int));
        }
        if i > n - 1 {
            assert(precedes(keys, b[n - 1] as int, b[i] as int));
            if j > n - 1 {
                assert(precedes(keys, a[n - 1] as int, a[j] as int));
            }
        }
        assert(x == y);
        assert(a.take(n) =~= b.take(n));
    } else {
        assert(a.take(0) =~= b.take(0));
    }
}

/// In a stable order every position stands once, keys never fall, and positions
/// with the same key stand in their own order.
pub proof fn law_what_a_stable_order_is(keys: Seq<u128>, order: Seq<usize>, i: int, j: int)
    requires
        stable_order(keys, order),
        0 <= i < j < order.len(),
    ensures
        order.len() == keys.len(),
        keys[order[i] as int] <= keys[order[j] as int],
        keys[order[i] as int] == keys[order[j] as int] ==> order[i] < order[j],
        order[i] != order[j],
{
    assert(precedes(keys, order[i] as int, order[j] as int));
}

} // verus!
