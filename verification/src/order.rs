//! The orders tasks are listed in: ranked tasks first, then keys by their number.
use std::cmp::Ordering;

use vstd::prelude::*;
use vstd::utf8::encode_utf8;

use crate::field::value_of;
use crate::keys::{key_number, number_of_key};
use crate::metadata::rank_of;
use crate::sort::preorder_on;
use crate::task::{TaskListItem, TaskSummary};
use crate::text::{
    chain, chain_orders, flip, is_total_preorder, lemma_lex_equal, lemma_lex_flip,
    lemma_lex_transitive, lex_order, num_order, number_order, text_order, total_on, lemma_chain_total_on,
};

verus! {

/// The order of two texts: byte by byte, as `str` orders itself.
pub open spec fn text_lex(a: Seq<char>, b: Seq<char>) -> Ordering {
    lex_order(encode_utf8(a), encode_utf8(b))
}

/// The order of two ids. A key is a number behind a prefix, so two keys order by their numbers;
/// any other pair orders as text.
pub open spec fn id_order(a: Seq<char>, b: Seq<char>) -> Ordering {
    match (number_of_key(a), number_of_key(b)) {
        (Some(x), Some(y)) => num_order(x, y),
        _ => text_lex(a, b),
    }
}

/// Ranked tasks lead unranked ones, and ranks order as text.
pub open spec fn rank_part(ra: Option<Seq<char>>, rb: Option<Seq<char>>) -> Ordering {
    match (ra, rb) {
        (Some(x), Some(y)) => text_lex(x, y),
        (Some(_), None) => Ordering::Less,
        (None, Some(_)) => Ordering::Greater,
        (None, None) => Ordering::Equal,
    }
}

/// A `rank` is an order somebody set on purpose, so ranked tasks hold the top of the list and
/// `tie` decides among the rest.
pub open spec fn rank_order(ra: Option<Seq<char>>, rb: Option<Seq<char>>, tie: Ordering) -> Ordering {
    chain(rank_part(ra, rb), tie)
}

/// The newest first; an instant that could not be derived sorts after every known one.
pub open spec fn newest_order(a: Option<i64>, b: Option<i64>) -> Ordering {
    match (a, b) {
        (Some(x), Some(y)) => if y < x {
            Ordering::Less
        } else if y == x {
            Ordering::Equal
        } else {
            Ordering::Greater
        },
        (Some(_), None) => Ordering::Less,
        (None, Some(_)) => Ordering::Greater,
        (None, None) => Ordering::Equal,
    }
}

/// The second a list row reports as updated, where it reports one.
pub open spec fn updated_second(task: TaskListItem) -> Option<i64> {
    match value_of(&task.updated) {
        Some(at) => Some(at.0.second),
        None => None,
    }
}

/// Siblings: by rank, then by id.
pub open spec fn sibling_order(a: TaskSummary, b: TaskSummary) -> Ordering {
    rank_order(rank_of(&a.metadata), rank_of(&b.metadata), id_order(a.id@, b.id@))
}

/// List rows: by rank, then by id.
pub open spec fn list_item_order(a: TaskListItem, b: TaskListItem) -> Ordering {
    rank_order(rank_of(&a.metadata), rank_of(&b.metadata), id_order(a.id@, b.id@))
}

/// The tie-break of the board among tasks of one rank: newest first, then project, then id.
pub open spec fn board_tie(a: TaskListItem, b: TaskListItem) -> Ordering {
    chain(
        newest_order(updated_second(a), updated_second(b)),
        chain(text_lex(a.project@, b.project@), id_order(a.id@, b.id@)),
    )
}

/// The board: by rank, then the most recently updated, then by project, then by id.
pub open spec fn board_order(a: TaskListItem, b: TaskListItem) -> Ordering {
    rank_order(rank_of(&a.metadata), rank_of(&b.metadata), board_tie(a, b))
}

/// A key is a number behind a prefix, so it orders as one: text order would file `OPP-10`
/// between `OPP-1` and `OPP-2`.
pub fn id_cmp(a: &str, b: &str) -> (order: Ordering)
    ensures
        order == id_order(a@, b@),
{
    match (key_number(a), key_number(b)) {
        (Some(x), Some(y)) => number_order(x, y),
        _ => text_order(a, b),
    }
}

/// Ranked tasks lead, ordered by rank; `unranked` decides a tie and among unranked tasks.
pub fn rank_cmp<F: Fn() -> Ordering>(ra: Option<&str>, rb: Option<&str>, unranked: F) -> (order:
    Ordering)
    requires
        call_requires(unranked, ()),
    ensures
        ({
            let a = match ra {
                Some(x) => Some(x@),
                None => None,
            };
            let b = match rb {
                Some(y) => Some(y@),
                None => None,
            };
            &&& (rank_part(a, b) == Ordering::Equal ==> call_ensures(unranked, (), order))
            &&& (rank_part(a, b) != Ordering::Equal ==> order == rank_part(a, b))
        }),
{
    match (ra, rb) {
        (Some(x), Some(y)) => {
            let by_rank = text_order(x, y);
            match by_rank {
                Ordering::Equal => unranked(),
                _ => by_rank,
            }
        },
        (Some(_), None) => Ordering::Less,
        (None, Some(_)) => Ordering::Greater,
        (None, None) => unranked(),
    }
}

/// Rank ties break by id, so the order is stable across rebuilds.
pub fn sibling_cmp(a: &TaskSummary, b: &TaskSummary) -> (order: Ordering)
    ensures
        order == sibling_order(*a, *b),
{
    let by_id = || -> (r: Ordering)
        ensures
            r == id_order(a.id@, b.id@),
        { id_cmp(a.id.as_str(), b.id.as_str()) };
    rank_cmp(a.metadata.rank(), b.metadata.rank(), by_id)
}

/// List rows: by rank, then by id.
pub fn list_item_cmp(a: &TaskListItem, b: &TaskListItem) -> (order: Ordering)
    ensures
        order == list_item_order(*a, *b),
{
    let by_id = || -> (r: Ordering)
        ensures
            r == id_order(a.id@, b.id@),
        { id_cmp(a.id.as_str(), b.id.as_str()) };
    rank_cmp(a.metadata.rank(), b.metadata.rank(), by_id)
}

/// An `updated` that could not be derived places the task nowhere on the scale, so it sorts
/// after every dated one rather than reading as the oldest.
fn newest_first(a: &TaskListItem, b: &TaskListItem) -> (order: Ordering)
    ensures
        order == newest_order(updated_second(*a), updated_second(*b)),
{
    match (a.updated.as_value(), b.updated.as_value()) {
        (Some(x), Some(y)) => {
            if y.0.second < x.0.second {
                Ordering::Less
            } else if y.0.second == x.0.second {
                Ordering::Equal
            } else {
                Ordering::Greater
            }
        },
        (Some(_), None) => Ordering::Less,
        (None, Some(_)) => Ordering::Greater,
        (None, None) => Ordering::Equal,
    }
}

/// The board leads with the work touched most recently. A merged board holds tasks from several
/// projects, so the project name breaks a tie before the id does; every ranked task still leads
/// every unranked one.
pub fn board_cmp(a: &TaskListItem, b: &TaskListItem) -> (order: Ordering)
    ensures
        order == board_order(*a, *b),
{
    let tie = || -> (r: Ordering)
        ensures
            r == board_tie(*a, *b),
        {
            let by_project = text_order(a.project.as_str(), b.project.as_str());
            let by_id = id_cmp(a.id.as_str(), b.id.as_str());
            chain_orders(newest_first(a, b), chain_orders(by_project, by_id))
        };
    rank_cmp(a.metadata.rank(), b.metadata.rank(), tie)
}

/// Text order is a total order.
pub proof fn lemma_text_lex_preorder()
    ensures
        is_total_preorder(|a: Seq<char>, b: Seq<char>| text_lex(a, b)),
{
    assert forall|a: Seq<char>, b: Seq<char>| text_lex(a, b) == flip(text_lex(b, a)) by {
        lemma_lex_flip(encode_utf8(a), encode_utf8(b));
    }
    assert forall|a: Seq<char>| text_lex(a, a) == Ordering::Equal by {
        lemma_lex_equal(encode_utf8(a), encode_utf8(a));
    }
    assert forall|a: Seq<char>, b: Seq<char>, c: Seq<char>|
        #[trigger] text_lex(a, b) != Ordering::Greater && #[trigger] text_lex(b, c)
            != Ordering::Greater implies text_lex(a, c) != Ordering::Greater by {
        lemma_lex_transitive(encode_utf8(a), encode_utf8(b), encode_utf8(c));
    }
    assert forall|a: Seq<char>, b: Seq<char>, c: Seq<char>|
        #[trigger] text_lex(a, b) == Ordering::Equal && #[trigger] text_lex(b, c)
            == Ordering::Equal implies text_lex(a, c) == Ordering::Equal by {
        lemma_lex_equal(encode_utf8(a), encode_utf8(b));
        lemma_lex_equal(encode_utf8(b), encode_utf8(c));
        lemma_lex_equal(encode_utf8(a), encode_utf8(c));
    }
}

pub proof fn lemma_text_lex_flip(a: Seq<char>, b: Seq<char>)
    ensures
        text_lex(a, b) == flip(text_lex(b, a)),
{
    lemma_lex_flip(encode_utf8(a), encode_utf8(b));
}

pub proof fn lemma_text_lex_transitive(a: Seq<char>, b: Seq<char>, c: Seq<char>)
    requires
        text_lex(a, b) != Ordering::Greater,
        text_lex(b, c) != Ordering::Greater,
    ensures
        text_lex(a, c) != Ordering::Greater,
{
    lemma_lex_transitive(encode_utf8(a), encode_utf8(b), encode_utf8(c));
}

/// Ranked before unranked, ranks as text: a total order of optional ranks.
pub proof fn lemma_rank_part_preorder()
    ensures
        is_total_preorder(|a: Option<Seq<char>>, b: Option<Seq<char>>| rank_part(a, b)),
{
    assert forall|a: Option<Seq<char>>, b: Option<Seq<char>>|
        rank_part(a, b) == flip(rank_part(b, a)) by {
        if a is Some && b is Some {
            lemma_text_lex_flip(a->0, b->0);
        }
    }
    assert forall|a: Option<Seq<char>>| rank_part(a, a) == Ordering::Equal by {
        if a is Some {
            lemma_lex_equal(encode_utf8(a->0), encode_utf8(a->0));
        }
    }
    assert forall|a: Option<Seq<char>>, b: Option<Seq<char>>, c: Option<Seq<char>>|
        #[trigger] rank_part(a, b) != Ordering::Greater && #[trigger] rank_part(b, c)
            != Ordering::Greater implies rank_part(a, c) != Ordering::Greater by {
        if a is Some && b is Some && c is Some {
            lemma_text_lex_transitive(a->0, b->0, c->0);
        }
    }
    assert forall|a: Option<Seq<char>>, b: Option<Seq<char>>, c: Option<Seq<char>>|
        #[trigger] rank_part(a, b) == Ordering::Equal && #[trigger] rank_part(b, c)
            == Ordering::Equal implies rank_part(a, c) == Ordering::Equal by {
        if a is Some && b is Some && c is Some {
            lemma_lex_equal(encode_utf8(a->0), encode_utf8(b->0));
            lemma_lex_equal(encode_utf8(b->0), encode_utf8(c->0));
            lemma_lex_equal(encode_utf8(a->0), encode_utf8(c->0));
        }
    }
}

/// Newest first is a total order of optional instants.
pub proof fn lemma_newest_preorder()
    ensures
        is_total_preorder(|a: Option<i64>, b: Option<i64>| newest_order(a, b)),
{
}

/// Ids, one for each position below `n`, that are all keys or none of which is one.
pub open spec fn uniform_ids(ids: spec_fn(usize) -> Seq<char>, n: usize) -> bool {
    (forall|i: usize| i < n ==> (#[trigger] number_of_key(ids(i))) is Some) || (forall|i: usize|
        i < n ==> (#[trigger] number_of_key(ids(i))) is None)
}

/// On ids that are all keys, or none of which is one, the id order is a total preorder.
pub proof fn lemma_id_order_preorder(ids: spec_fn(usize) -> Seq<char>, n: usize)
    requires
        uniform_ids(ids, n),
    ensures
        preorder_on(|a: usize, b: usize| id_order(ids(a), ids(b)), n + 0int),
{
    lemma_text_lex_preorder();
    let ord = |a: usize, b: usize| id_order(ids(a), ids(b));
    assert forall|a: usize, b: usize| a < n && b < n implies #[trigger] ord(a, b) == flip(ord(b, a)) by {
        assert(number_of_key(ids(a)) is Some <==> number_of_key(ids(b)) is Some);
        lemma_text_lex_flip(ids(a), ids(b));
    }
    assert forall|a: usize, b: usize, c: usize|
        a < n && b < n && c < n && #[trigger] ord(a, b) != Ordering::Greater && #[trigger] ord(b, c)
            != Ordering::Greater implies ord(a, c) != Ordering::Greater by {
        assert(number_of_key(ids(a)) is Some <==> number_of_key(ids(b)) is Some);
        assert(number_of_key(ids(c)) is Some <==> number_of_key(ids(b)) is Some);
        if number_of_key(ids(a)) is None {
            lemma_text_lex_transitive(ids(a), ids(b), ids(c));
        }
    }
}


/// Keys order by their numbers, which makes the id order a total preorder on them.
pub proof fn lemma_id_order_keyed()
    ensures
        total_on(|a: Seq<char>, b: Seq<char>| id_order(a, b), |a: Seq<char>| number_of_key(a) is Some),
{
}


/// Ranked first, by rank, then by id: a total preorder on the values whose ids are keys.
pub proof fn lemma_rank_then_id<T>(rank: spec_fn(T) -> Option<Seq<char>>, id: spec_fn(T) -> Seq<char>)
    ensures
        total_on(|a: T, b: T| rank_order(rank(a), rank(b), id_order(id(a), id(b))), |t: T| number_of_key(id(t)) is Some),
{
    let dom = |t: T| number_of_key(id(t)) is Some;
    let by_rank = |a: T, b: T| rank_part(rank(a), rank(b));
    let by_id = |a: T, b: T| id_order(id(a), id(b));
    lemma_rank_part_preorder();
    let rank_ord = |a: Option<Seq<char>>, b: Option<Seq<char>>| rank_part(a, b);
    assert(total_on(by_rank, dom)) by {
        assert forall|a: T, b: T, c: T|
            #[trigger] by_rank(a, b) != Ordering::Greater && #[trigger] by_rank(b, c) != Ordering::Greater implies by_rank(
            a,
            c,
        ) != Ordering::Greater by {
            assert(rank_ord(rank(a), rank(b)) != Ordering::Greater);
            assert(rank_ord(rank(b), rank(c)) != Ordering::Greater);
        }
        assert forall|a: T, b: T| #[trigger] by_rank(a, b) == flip(by_rank(b, a)) by {
            assert(rank_ord(rank(a), rank(b)) == flip(rank_ord(rank(b), rank(a))));
        }
    }
    lemma_chain_total_on(by_rank, by_id, dom);
    let ord = |a: T, b: T| chain(by_rank(a, b), by_id(a, b));
    assert forall|a: T, b: T, c: T|
        dom(a) && dom(b) && dom(c) && #[trigger] rank_order(rank(a), rank(b), id_order(id(a), id(b))) != Ordering::Greater
            && #[trigger] rank_order(rank(b), rank(c), id_order(id(b), id(c))) != Ordering::Greater implies rank_order(
        rank(a),
        rank(c),
        id_order(id(a), id(c)),
    ) != Ordering::Greater by {
        assert(ord(a, b) != Ordering::Greater && ord(b, c) != Ordering::Greater);
        assert(ord(a, c) != Ordering::Greater);
    }
    assert forall|a: T, b: T| dom(a) && dom(b) implies #[trigger] rank_order(rank(a), rank(b), id_order(id(a), id(b)))
        == flip(rank_order(rank(b), rank(a), id_order(id(b), id(a)))) by {
        assert(ord(a, b) == flip(ord(b, a)));
    }
}


/// Ids none of which is a key order as text, which makes the id order a total preorder on them.
pub proof fn lemma_id_order_unkeyed()
    ensures
        total_on(|a: Seq<char>, b: Seq<char>| id_order(a, b), |a: Seq<char>| number_of_key(a) is None),
{
    lemma_text_lex_preorder();
    let text_ord = |a: Seq<char>, b: Seq<char>| text_lex(a, b);
    assert forall|a: Seq<char>, b: Seq<char>, c: Seq<char>|
        number_of_key(a) is None && number_of_key(b) is None && number_of_key(c) is None && #[trigger] id_order(a, b)
            != Ordering::Greater && #[trigger] id_order(b, c) != Ordering::Greater implies id_order(a, c) != Ordering::Greater by {
        assert(text_ord(a, b) != Ordering::Greater && text_ord(b, c) != Ordering::Greater);
    }
    assert forall|a: Seq<char>, b: Seq<char>|
        number_of_key(a) is None && number_of_key(b) is None implies #[trigger] id_order(a, b) == flip(id_order(b, a)) by {
        assert(text_ord(a, b) == flip(text_ord(b, a)));
    }
}

} // verus!
