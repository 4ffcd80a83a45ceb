//! A stable insertion sort of positions, for every list the views order.
use std::cmp::Ordering;

use vstd::prelude::*;

use crate::text::flip;

verus! {

/// `s` holds each position below `n` exactly once.
pub open spec fn is_permutation(s: Seq<usize>, n: int) -> bool {
    &&& s.len() == n
    &&& s.no_duplicates()
    &&& forall|i: int| 0 <= i < s.len() ==> #[trigger] s[i] < n
}

/// `ord` is a total preorder on the positions below `n`.
pub open spec fn preorder_on(ord: spec_fn(usize, usize) -> Ordering, n: int) -> bool {
    &&& forall|a: usize, b: usize| a < n && b < n ==> #[trigger] ord(a, b) == flip(ord(b, a))
    &&& forall|a: usize, b: usize, c: usize|
        a < n && b < n && c < n && #[trigger] ord(a, b) != Ordering::Greater && #[trigger] ord(b, c)
            != Ordering::Greater ==> ord(a, c) != Ordering::Greater
}

/// No later position comes before an earlier one.
pub open spec fn sorted_by(s: Seq<usize>, ord: spec_fn(usize, usize) -> Ordering) -> bool {
    forall|i: int, j: int| 0 <= i < j < s.len() ==> ord(#[trigger] s[i], #[trigger] s[j]) != Ordering::Greater
}

/// Positions the order ties keep the order they had.
pub open spec fn stable_by(s: Seq<usize>, ord: spec_fn(usize, usize) -> Ordering) -> bool {
    forall|i: int, j: int|
        0 <= i < j < s.len() && ord(#[trigger] s[i], #[trigger] s[j]) == Ordering::Equal ==> s[i]
            < s[j]
}

proof fn lemma_insert_permutation(before: Seq<usize>, p: int, i: usize)
    requires
        is_permutation(before, i as int),
        0 <= p <= before.len(),
        i < usize::MAX,
    ensures
        is_permutation(before.insert(p, i), i + 1),
{
    let now = before.insert(p, i);
    assert forall|a: int, b: int| 0 <= a < b < now.len() implies now[a] != now[b] by {
        if a < p && b < p {
        } else if a < p && b == p {
        } else if a < p {
            assert(now[b] == before[b - 1]);
        } else if a == p {
            assert(now[b] == before[b - 1]);
        } else {
            assert(now[a] == before[a - 1]);
            assert(now[b] == before[b - 1]);
        }
    }
    assert forall|k: int| 0 <= k < now.len() implies #[trigger] now[k] < i + 1 by {
        if k > p {
            assert(now[k] == before[k - 1]);
        }
    }
}

proof fn lemma_insert_sorted(
    before: Seq<usize>,
    p: int,
    i: usize,
    ord: spec_fn(usize, usize) -> Ordering,
    n: usize,
)
    requires
        preorder_on(ord, n + 0int),
        i < n,
        is_permutation(before, i + 0int),
        sorted_by(before, ord),
        stable_by(before, ord),
        0 <= p <= before.len(),
        p > 0 ==> ord(i, before[p - 1]) != Ordering::Less,
        forall|k: int| p <= k < before.len() ==> ord(i, #[trigger] before[k]) == Ordering::Less,
    ensures
        sorted_by(before.insert(p, i), ord),
        stable_by(before.insert(p, i), ord),
{
    let now = before.insert(p, i);
    assert forall|a: int, b: int| 0 <= a < b < now.len() implies ord(
        #[trigger] now[a],
        #[trigger] now[b],
    ) != Ordering::Greater by {
        if b == p {
            let x = before[p - 1];
            assert(ord(x, i) == flip(ord(i, x)));
            if a < p - 1 {
                assert(ord(before[a], x) != Ordering::Greater);
            }
        } else if a == p {
            assert(now[b] == before[b - 1]);
            assert(ord(i, before[b - 1]) == Ordering::Less);
        } else if a < p && b > p {
            assert(now[b] == before[b - 1]);
            assert(ord(before[a], before[b - 1]) != Ordering::Greater);
        } else if a > p {
            assert(now[a] == before[a - 1]);
            assert(now[b] == before[b - 1]);
            assert(ord(before[a - 1], before[b - 1]) != Ordering::Greater);
        } else {
            assert(ord(before[a], before[b]) != Ordering::Greater);
        }
    }
    assert forall|a: int, b: int|
        0 <= a < b < now.len() && ord(#[trigger] now[a], #[trigger] now[b])
            == Ordering::Equal implies now[a] < now[b] by {
        if b == p {
            assert(before[a] < i);
        } else if a == p {
            assert(now[b] == before[b - 1]);
            assert(ord(i, before[b - 1]) == Ordering::Less);
        } else if a < p && b > p {
            assert(now[b] == before[b - 1]);
            assert(ord(before[a], before[b - 1]) == Ordering::Equal);
        } else if a > p {
            assert(now[a] == before[a - 1]);
            assert(now[b] == before[b - 1]);
            assert(ord(before[a - 1], before[b - 1]) == Ordering::Equal);
        } else {
            assert(ord(before[a], before[b]) == Ordering::Equal);
        }
    }
}

/// The positions `0..n`, ordered by `ord`, ties in their own order. `less` answers whether `ord`
/// puts its first argument strictly before its second.
pub fn sort_positions<F: Fn(usize, usize) -> bool>(
    n: usize,
    less: F,
    Ghost(ord): Ghost<spec_fn(usize, usize) -> Ordering>,
) -> (order: Vec<usize>)
    requires
        forall|a: usize, b: usize| a < n && b < n ==> call_requires(less, (a, b)),
        forall|a: usize, b: usize, r: bool|
            a < n && b < n && call_ensures(less, (a, b), r) ==> r == (ord(a, b) == Ordering::Less),
    ensures
        is_permutation(order@, n + 0int),
        preorder_on(ord, n + 0int) ==> sorted_by(order@, ord) && stable_by(order@, ord),
{
    let mut out: Vec<usize> = Vec::new();
    let mut i: usize = 0;
    while i < n
        invariant
            i <= n,
            forall|a: usize, b: usize| a < n && b < n ==> call_requires(less, (a, b)),
            forall|a: usize, b: usize, r: bool|
                a < n && b < n && call_ensures(less, (a, b), r) ==> r == (ord(a, b)
                    == Ordering::Less),
            is_permutation(out@, i + 0int),
            preorder_on(ord, n + 0int) ==> sorted_by(out@, ord) && stable_by(out@, ord),
        decreases n - i,
    {
        let mut pos: usize = out.len();
        let ghost mut p: int = out@.len() + 0int;
        while pos > 0 && less(i, out[pos - 1])
            invariant
                p == pos,
                i < n,
                pos <= out@.len(),
                is_permutation(out@, i + 0int),
                forall|a: usize, b: usize| a < n && b < n ==> call_requires(less, (a, b)),
                forall|a: usize, b: usize, r: bool|
                    a < n && b < n && call_ensures(less, (a, b), r) ==> r == (ord(a, b)
                        == Ordering::Less),
                forall|k: int| pos <= k < out@.len() ==> ord(i, #[trigger] out@[k]) == Ordering::Less,
            decreases pos,
        {
            pos = pos - 1;
            proof {
                p = p - 1;
            }
        }
        let ghost before = out@;
        proof {
            lemma_insert_permutation(before, p, i);
            if preorder_on(ord, n + 0int) {
                lemma_insert_sorted(before, p, i, ord, n);
            }
        }
        out.insert(pos, i);
        assert(out@ =~= before.insert(p, i));
        i = i + 1;
    }
    out
}


/// An order of values that is a total preorder on the values `dom` admits, read through positions
/// whose values it admits, is a total preorder on those positions.
pub proof fn lemma_preorder_through<T>(
    ord: spec_fn(T, T) -> Ordering,
    dom: spec_fn(T) -> bool,
    f: spec_fn(usize) -> T,
    n: int,
)
    requires
        crate::text::total_on(ord, dom),
        forall|a: usize| a < n ==> dom(#[trigger] f(a)),
    ensures
        preorder_on(|a: usize, b: usize| ord(f(a), f(b)), n),
{
    let pos = |a: usize, b: usize| ord(f(a), f(b));
    assert forall|a: usize, b: usize| a < n && b < n implies #[trigger] pos(a, b) == flip(pos(b, a)) by {
        assert(dom(f(a)) && dom(f(b)));
        assert(ord(f(a), f(b)) == flip(ord(f(b), f(a))));
    }
    assert forall|a: usize, b: usize, c: usize|
        a < n && b < n && c < n && #[trigger] pos(a, b) != Ordering::Greater && #[trigger] pos(b, c)
            != Ordering::Greater implies pos(a, c) != Ordering::Greater by {
        assert(dom(f(a)) && dom(f(b)) && dom(f(c)));
        assert(ord(f(a), f(b)) != Ordering::Greater && ord(f(b), f(c)) != Ordering::Greater);
    }
}

} // verus!
