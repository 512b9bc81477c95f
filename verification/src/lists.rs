//! Taking the first items of a kind out of a list.
use vstd::prelude::*;

verus! {

/// The first `n` items of a list, or all of them where there are fewer.
pub open spec fn first_n<A>(s: Seq<A>, n: nat) -> Seq<A> {
    if s.len() <= n {
        s
    } else {
        s.take(n as int)
    }
}

/// The items behind the first `n`.
pub open spec fn after_n<A>(s: Seq<A>, n: nat) -> Seq<A> {
    if s.len() <= n {
        Seq::empty()
    } else {
        s.skip(n as int)
    }
}

/// A list without the first `n` items that pass a test.
pub open spec fn without_first<A>(s: Seq<A>, test: spec_fn(A) -> bool, n: nat) -> Seq<A>
    decreases s.len(),
{
    if s.len() == 0 || n == 0 {
        s
    } else if test(s[0]) {
        without_first(s.skip(1), test, (n - 1) as nat)
    } else {
        seq![s[0]] + without_first(s.skip(1), test, n)
    }
}

/// Filtering a list with an item in front.
pub proof fn lemma_filter_front<A>(a: A, s: Seq<A>, test: spec_fn(A) -> bool)
    ensures
        (seq![a] + s).filter(test) == (if test(a) {
            seq![a] + s.filter(test)
        } else {
            s.filter(test)
        }),
{
    Seq::filter_distributes_over_add(seq![a], s, test);
    reveal_with_fuel(Seq::filter, 2);
    assert(seq![a].drop_last() =~= Seq::<A>::empty());
    assert(seq![a].last() == a);
    if test(a) {
        assert(seq![a].filter(test) =~= seq![a]);
    } else {
        assert(seq![a].filter(test) =~= Seq::<A>::empty());
    }
    assert(Seq::<A>::empty() + s.filter(test) =~= s.filter(test));
}

/// Of the items that pass the test, those behind the first `n` are left.
pub proof fn lemma_without_first_left<A>(s: Seq<A>, test: spec_fn(A) -> bool, n: nat)
    ensures
        without_first(s, test, n).filter(test) == after_n(s.filter(test), n),
    decreases s.len(),
{
    if s.len() == 0 || n == 0 {
        reveal(Seq::filter);
        assert(after_n(s.filter(test), n) =~= s.filter(test));
    } else {
        let rest = s.skip(1);
        assert(seq![s[0]] + rest =~= s);
        lemma_filter_front(s[0], rest, test);
        if test(s[0]) {
            lemma_without_first_left(rest, test, (n - 1) as nat);
            assert(after_n(seq![s[0]] + rest.filter(test), n) =~= after_n(rest.filter(test), (n - 1) as nat));
        } else {
            lemma_without_first_left(rest, test, n);
            lemma_filter_front(s[0], without_first(rest, test, n), test);
        }
    }
}

/// The items that pass another test, which no item passes along with the
/// first, are all left.
pub proof fn lemma_without_first_others<A>(
    s: Seq<A>,
    test: spec_fn(A) -> bool,
    n: nat,
    other: spec_fn(A) -> bool,
)
    requires
        forall|a: A| #[trigger] other(a) ==> !test(a),
    ensures
        without_first(s, test, n).filter(other) == s.filter(other),
    decreases s.len(),
{
    if s.len() > 0 && n > 0 {
        let rest = s.skip(1);
        assert(seq![s[0]] + rest =~= s);
        lemma_filter_front(s[0], rest, other);
        if test(s[0]) {
            lemma_without_first_others(rest, test, (n - 1) as nat, other);
            assert(!other(s[0])) by {
                if other(s[0]) {
                    assert(!test(s[0]));
                }
            }
        } else {
            lemma_without_first_others(rest, test, n, other);
            lemma_filter_front(s[0], without_first(rest, test, n), other);
        }
    }
}

/// How many items go.
pub proof fn lemma_without_first_len<A>(s: Seq<A>, test: spec_fn(A) -> bool, n: nat)
    ensures
        without_first(s, test, n).len() + first_n(s.filter(test), n).len() == s.len(),
    decreases s.len(),
{
    if s.len() == 0 {
        reveal(Seq::filter);
    } else if n > 0 {
        let rest = s.skip(1);
        assert(seq![s[0]] + rest =~= s);
        lemma_filter_front(s[0], rest, test);
        if test(s[0]) {
            lemma_without_first_len(rest, test, (n - 1) as nat);
        } else {
            lemma_without_first_len(rest, test, n);
        }
    } else {
        assert(first_n(s.filter(test), n).len() == 0);
    }
}

/// Taking `n` items and then `m` more is taking `n + m`.
pub proof fn lemma_pages_join<A>(s: Seq<A>, n: nat, m: nat)
    ensures
        first_n(s, n) + first_n(after_n(s, n), m) == first_n(s, n + m),
{
    assert(first_n(s, n) + first_n(after_n(s, n), m) =~= first_n(s, n + m));
}

/// The first items of a list and those behind them are the list, and there are
/// as many first ones as asked for, or all.
pub proof fn law_first_and_rest<A>(s: Seq<A>, n: nat)
    ensures
        first_n(s, n) + after_n(s, n) == s,
        first_n(s, n).len() <= n,
        first_n(s, n).len() == n || first_n(s, n).len() == s.len(),
{
    assert(first_n(s, n) + after_n(s, n) =~= s);
}

/// Where the first `n` items of a kind are taken out of a list, what is left of
/// that kind is what stood behind them, and all that is not of that kind is left
/// in its order.
pub proof fn law_only_the_first_of_a_kind_go<A>(
    s: Seq<A>,
    test: spec_fn(A) -> bool,
    others: spec_fn(A) -> bool,
    n: nat,
)
    requires
        forall|a: A| #[trigger] others(a) <==> !test(a),
    ensures
        without_first(s, test, n).filter(others) == s.filter(others),
        s.filter(test).len() <= n ==> without_first(s, test, n).filter(test).len() == 0,
        s.filter(test).len() > n ==> without_first(s, test, n).filter(test) == s.filter(test).skip(n as int),
{
    lemma_without_first_others(s, test, n, others);
    lemma_without_first_left(s, test, n);
}

} // verus!
