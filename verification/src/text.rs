//! Text primitives every other module orders and parses by: byte-wise ordering of strings, and
//! the task numbers behind keys such as `OPP-42`.
use std::cmp::Ordering;

use vstd::prelude::*;
use vstd::string::StringSliceAdditionalSpecFns;

verus! {

/// The bytes a string is stored as.
pub open spec fn bytes_of(s: &str) -> Seq<u8> {
    s.spec_bytes()
}

/// Lexicographic order of two byte strings, which is how Rust orders `str` values.
pub open spec fn lex_order(a: Seq<u8>, b: Seq<u8>) -> Ordering
    decreases a.len(),
{
    if a.len() == 0 {
        if b.len() == 0 {
            Ordering::Equal
        } else {
            Ordering::Less
        }
    } else if b.len() == 0 {
        Ordering::Greater
    } else if a[0] < b[0] {
        Ordering::Less
    } else if a[0] > b[0] {
        Ordering::Greater
    } else {
        lex_order(a.drop_first(), b.drop_first())
    }
}

/// The order with its two sides swapped.
pub open spec fn flip(o: Ordering) -> Ordering {
    match o {
        Ordering::Less => Ordering::Greater,
        Ordering::Equal => Ordering::Equal,
        Ordering::Greater => Ordering::Less,
    }
}

/// `first`, unless it is a tie, in which case `second` decides.
pub open spec fn chain(first: Ordering, second: Ordering) -> Ordering {
    match first {
        Ordering::Equal => second,
        _ => first,
    }
}

/// The natural order of two numbers.
pub open spec fn num_order(x: u64, y: u64) -> Ordering {
    if x < y {
        Ordering::Less
    } else if x == y {
        Ordering::Equal
    } else {
        Ordering::Greater
    }
}

/// An order that is a total preorder when read through `ord` on the values it relates: swapping
/// the sides flips it, and `Less` and `Equal` chain.
pub open spec fn is_total_preorder<T>(ord: spec_fn(T, T) -> Ordering) -> bool {
    &&& forall|a: T, b: T| #[trigger] ord(a, b) == flip(ord(b, a))
    &&& forall|a: T| #[trigger] ord(a, a) == Ordering::Equal
    &&& forall|a: T, b: T, c: T|
        #[trigger] ord(a, b) != Ordering::Greater && #[trigger] ord(b, c) != Ordering::Greater
            ==> ord(a, c) != Ordering::Greater
    &&& forall|a: T, b: T, c: T|
        #[trigger] ord(a, b) == Ordering::Equal && #[trigger] ord(b, c) == Ordering::Equal
            ==> ord(a, c) == Ordering::Equal
}

pub proof fn lemma_lex_flip(a: Seq<u8>, b: Seq<u8>)
    ensures
        lex_order(a, b) == flip(lex_order(b, a)),
    decreases a.len(),
{
    if a.len() > 0 && b.len() > 0 && a[0] == b[0] {
        lemma_lex_flip(a.drop_first(), b.drop_first());
    }
}

pub proof fn lemma_lex_equal(a: Seq<u8>, b: Seq<u8>)
    ensures
        lex_order(a, b) == Ordering::Equal <==> a == b,
    decreases a.len(),
{
    if a.len() > 0 && b.len() > 0 && a[0] == b[0] {
        lemma_lex_equal(a.drop_first(), b.drop_first());
        if a.drop_first() == b.drop_first() {
            assert(a =~= seq![a[0]] + a.drop_first());
            assert(b =~= seq![b[0]] + b.drop_first());
        }
        if a == b {
            assert(a.drop_first() =~= b.drop_first());
        }
    } else if a.len() == 0 && b.len() == 0 {
        assert(a =~= b);
    }
}

pub proof fn lemma_lex_transitive(a: Seq<u8>, b: Seq<u8>, c: Seq<u8>)
    requires
        lex_order(a, b) != Ordering::Greater,
        lex_order(b, c) != Ordering::Greater,
    ensures
        lex_order(a, c) != Ordering::Greater,
        lex_order(a, b) == Ordering::Less || lex_order(b, c) == Ordering::Less ==> lex_order(a, c)
            == Ordering::Less,
    decreases a.len(),
{
    if a.len() > 0 && b.len() > 0 && c.len() > 0 && a[0] == b[0] && b[0] == c[0] {
        lemma_lex_transitive(a.drop_first(), b.drop_first(), c.drop_first());
    }
}

pub proof fn lemma_lex_skip(a: Seq<u8>, b: Seq<u8>, i: int)
    requires
        0 <= i < a.len(),
        i < b.len(),
        a[i] == b[i],
    ensures
        lex_order(a.skip(i), b.skip(i)) == lex_order(a.skip(i + 1), b.skip(i + 1)),
{
    assert(a.skip(i).drop_first() =~= a.skip(i + 1));
    assert(b.skip(i).drop_first() =~= b.skip(i + 1));
}

/// Orders two strings byte by byte, as `str` orders itself.
pub fn text_order(a: &str, b: &str) -> (order: Ordering)
    ensures
        order == lex_order(bytes_of(a), bytes_of(b)),
{
    let x = a.as_bytes();
    let y = b.as_bytes();
    let mut i: usize = 0;
    let ghost mut at: int = 0;
    assert(x@.skip(0) =~= x@);
    assert(y@.skip(0) =~= y@);
    while i < x.len() && i < y.len()
        invariant
            at == i,
            i <= x@.len(),
            i <= y@.len(),
            x@ == bytes_of(a),
            y@ == bytes_of(b),
            lex_order(x@, y@) == lex_order(x@.skip(at), y@.skip(at)),
        decreases x@.len() - i,
    {
        if x[i] < y[i] {
            return Ordering::Less;
        }
        if x[i] > y[i] {
            return Ordering::Greater;
        }
        proof {
            lemma_lex_skip(x@, y@, at);
            at = at + 1;
        }
        i = i + 1;
    }
    if i == x.len() && i == y.len() {
        Ordering::Equal
    } else if i == x.len() {
        Ordering::Less
    } else {
        Ordering::Greater
    }
}

/// Two strings hold the same bytes.
pub fn same_text(a: &str, b: &str) -> (same: bool)
    ensures
        same == (bytes_of(a) == bytes_of(b)),
{
    let order = text_order(a, b);
    proof {
        lemma_lex_equal(bytes_of(a), bytes_of(b));
    }
    match order {
        Ordering::Equal => true,
        _ => false,
    }
}

/// Two strings hold the same characters.
pub fn same_chars(a: &str, b: &str) -> (same: bool)
    ensures
        same == (a@ == b@),
{
    let same = same_text(a, b);
    proof {
        vstd::utf8::encode_utf8_decode_utf8(a@);
        vstd::utf8::encode_utf8_decode_utf8(b@);
    }
    same
}

/// `first`, unless it is a tie, in which case `second` decides.
pub fn chain_orders(first: Ordering, second: Ordering) -> (order: Ordering)
    ensures
        order == chain(first, second),
{
    match first {
        Ordering::Equal => second,
        _ => first,
    }
}

/// The natural order of two numbers.
pub fn number_order(x: u64, y: u64) -> (order: Ordering)
    ensures
        order == num_order(x, y),
{
    if x < y {
        Ordering::Less
    } else if x == y {
        Ordering::Equal
    } else {
        Ordering::Greater
    }
}


/// `ord` is a total preorder on the values `dom` admits: swapping the sides flips it, and `Less`
/// and `Equal` chain.
pub open spec fn total_on<T>(ord: spec_fn(T, T) -> Ordering, dom: spec_fn(T) -> bool) -> bool {
    &&& forall|a: T, b: T| dom(a) && dom(b) ==> #[trigger] ord(a, b) == flip(ord(b, a))
    &&& forall|a: T, b: T, c: T|
        dom(a) && dom(b) && dom(c) && #[trigger] ord(a, b) != Ordering::Greater && #[trigger] ord(b, c)
            != Ordering::Greater ==> ord(a, c) != Ordering::Greater
}

/// In a total preorder, a step before and a step not after make a step before, and two ties make
/// a tie.
pub proof fn lemma_total_on_steps<T>(ord: spec_fn(T, T) -> Ordering, dom: spec_fn(T) -> bool, a: T, b: T, c: T)
    requires
        total_on(ord, dom),
        dom(a),
        dom(b),
        dom(c),
        ord(a, b) != Ordering::Greater,
        ord(b, c) != Ordering::Greater,
    ensures
        ord(a, b) == Ordering::Less || ord(b, c) == Ordering::Less ==> ord(a, c) == Ordering::Less,
        ord(a, b) == Ordering::Equal && ord(b, c) == Ordering::Equal ==> ord(a, c) == Ordering::Equal,
{
    assert(ord(a, c) != Ordering::Greater);
    assert(ord(c, a) == flip(ord(a, c)));
    assert(ord(b, a) == flip(ord(a, b)));
    assert(ord(c, b) == flip(ord(b, c)));
    if ord(a, c) == Ordering::Equal {
        if ord(b, c) != Ordering::Greater && ord(c, a) != Ordering::Greater {
            assert(ord(b, a) != Ordering::Greater);
        }
        if ord(c, a) != Ordering::Greater && ord(a, b) != Ordering::Greater {
            assert(ord(c, b) != Ordering::Greater);
        }
    }
    if ord(a, b) == Ordering::Equal && ord(b, c) == Ordering::Equal {
        assert(ord(c, b) != Ordering::Greater && ord(b, a) != Ordering::Greater);
        assert(ord(c, a) != Ordering::Greater);
    }
}

/// A total preorder on every value is one on the values `dom` admits.
pub proof fn lemma_total_on_everywhere<T>(ord: spec_fn(T, T) -> Ordering, dom: spec_fn(T) -> bool)
    requires
        is_total_preorder(ord),
    ensures
        total_on(ord, dom),
{
}

/// Breaking the ties of one total preorder by another gives a total preorder.
pub proof fn lemma_chain_total_on<T>(o1: spec_fn(T, T) -> Ordering, o2: spec_fn(T, T) -> Ordering, dom: spec_fn(T) -> bool)
    requires
        total_on(o1, dom),
        total_on(o2, dom),
    ensures
        total_on(|a: T, b: T| chain(o1(a, b), o2(a, b)), dom),
{
    let ord = |a: T, b: T| chain(o1(a, b), o2(a, b));
    assert forall|a: T, b: T| dom(a) && dom(b) implies #[trigger] ord(a, b) == flip(ord(b, a)) by {
        assert(o1(a, b) == flip(o1(b, a)));
        assert(o2(a, b) == flip(o2(b, a)));
    }
    assert forall|a: T, b: T, c: T|
        dom(a) && dom(b) && dom(c) && #[trigger] ord(a, b) != Ordering::Greater && #[trigger] ord(b, c)
            != Ordering::Greater implies ord(a, c) != Ordering::Greater by {
        assert(o1(a, b) != Ordering::Greater);
        assert(o1(b, c) != Ordering::Greater);
        lemma_total_on_steps(o1, dom, a, b, c);
        if o1(a, b) == Ordering::Equal && o1(b, c) == Ordering::Equal {
            assert(o2(a, b) != Ordering::Greater && o2(b, c) != Ordering::Greater);
        }
    }
}


/// A total preorder of values, read through a function of other values, is a total preorder of
/// those.
pub proof fn lemma_lift_total<T, U>(ord: spec_fn(U, U) -> Ordering, g: spec_fn(T) -> U, dom: spec_fn(T) -> bool)
    requires
        is_total_preorder(ord),
    ensures
        total_on(|a: T, b: T| ord(g(a), g(b)), dom),
{
    let lifted = |a: T, b: T| ord(g(a), g(b));
    assert forall|a: T, b: T| dom(a) && dom(b) implies #[trigger] lifted(a, b) == flip(lifted(b, a)) by {
        assert(ord(g(a), g(b)) == flip(ord(g(b), g(a))));
    }
    assert forall|a: T, b: T, c: T|
        dom(a) && dom(b) && dom(c) && #[trigger] lifted(a, b) != Ordering::Greater && #[trigger] lifted(b, c)
            != Ordering::Greater implies lifted(a, c) != Ordering::Greater by {
        assert(ord(g(a), g(b)) != Ordering::Greater && ord(g(b), g(c)) != Ordering::Greater);
    }
}

/// A total preorder on the values `dom` admits, read through a function of other values, is a
/// total preorder on those it maps into `dom`.
pub proof fn lemma_lift_total_on<T, U>(ord: spec_fn(U, U) -> Ordering, dom: spec_fn(U) -> bool, g: spec_fn(T) -> U)
    requires
        total_on(ord, dom),
    ensures
        total_on(|a: T, b: T| ord(g(a), g(b)), |t: T| dom(g(t))),
{
    let lifted = |a: T, b: T| ord(g(a), g(b));
    assert forall|a: T, b: T| dom(g(a)) && dom(g(b)) implies #[trigger] lifted(a, b) == flip(lifted(b, a)) by {
        assert(ord(g(a), g(b)) == flip(ord(g(b), g(a))));
    }
    assert forall|a: T, b: T, c: T|
        dom(g(a)) && dom(g(b)) && dom(g(c)) && #[trigger] lifted(a, b) != Ordering::Greater && #[trigger] lifted(b, c)
            != Ordering::Greater implies lifted(a, c) != Ordering::Greater by {
        assert(ord(g(a), g(b)) != Ordering::Greater && ord(g(b), g(c)) != Ordering::Greater);
    }
}

} // verus!
