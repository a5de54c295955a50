//! Choosing which books to export and in what order: books ordered by the
//! index of their latest record, and titles filtered by a query.
use vstd::prelude::*;
use crate::my_clippings::{lemma_distinct_indices, log_books, records};
use crate::note::{book_views, BookNotes, BookView};
use crate::text::{chars_of, contains, find, lemma_find_from};

verus! {

/// `b` stands somewhere in `order`.
pub open spec fn lists(order: Seq<usize>, b: int) -> bool {
    exists|i: int| 0 <= i < order.len() && order[i] == b
}

/// `order` lists every index of `books` once, by ascending index of the
/// book's latest record.
pub open spec fn is_recency_order(books: Seq<BookView>, order: Seq<usize>) -> bool {
    &&& order.len() == books.len()
    &&& forall|i: int| 0 <= i < order.len() ==> #[trigger] order[i] < books.len()
    &&& forall|i: int, j: int| 0 <= i < j < order.len() ==> #[trigger] order[i] != #[trigger] order[j]
    &&& forall|b: int| 0 <= b < books.len() ==> #[trigger] lists(order, b)
    &&& forall|i: int, j: int|
        0 <= i < j < order.len() ==> #[trigger] books[order[i] as int].mru <= #[trigger] books[order[j] as int].mru
}

/// No two books of `books` share the index of their latest record.
pub open spec fn distinct_mru(books: Seq<BookView>) -> bool {
    forall|j: int, k: int| 0 <= j < k < books.len() ==> #[trigger] books[j].mru != #[trigger] books[k].mru
}

/// The indices of `books`, by ascending index of each book's latest record.
pub fn recency_order(books: &Vec<BookNotes>) -> (r: Vec<usize>)
    ensures
        is_recency_order(book_views(books@), r@),
{
    let ghost bv = book_views(books@);
    let n = books.len();
    let mut order: Vec<usize> = Vec::new();
    let mut i: usize = 0;
    while i < n
        invariant
            n == books.len(),
            bv == book_views(books@),
            i <= n,
            order.len() == i,
            forall|p: int| 0 <= p < order.len() ==> #[trigger] order@[p] < i,
            forall|p: int, q: int| 0 <= p < q < order.len() ==> #[trigger] order@[p] != #[trigger] order@[q],
            forall|b: int| 0 <= b < i ==> #[trigger] lists(order@, b),
            forall|p: int, q: int|
                0 <= p < q < order.len() ==> #[trigger] bv[order@[p] as int].mru <= #[trigger] bv[order@[q] as int].mru,
        decreases n - i,
    {
        let key = books[i].mru_indice;
        let mut p: usize = 0;
        while p < order.len() && books[order[p]].mru_indice <= key
            invariant
                n == books.len(),
                bv == book_views(books@),
                i < n,
                order.len() == i,
                p <= order.len(),
                key == bv[i as int].mru,
                forall|m: int| 0 <= m < order.len() ==> #[trigger] order@[m] < i,
                forall|m: int| 0 <= m < p ==> #[trigger] bv[order@[m] as int].mru <= key,
            decreases order.len() - p,
        {
            p = p + 1;
        }
        let ghost old_order = order@;
        order.insert(p, i);
        proof {
            assert(order@ == old_order.insert(p as int, i));
            assert forall|m: int| p < m < order.len() implies #[trigger] bv[order@[m] as int].mru > key by {
                assert(bv[old_order[p as int] as int].mru > key);
                if m - 1 > p {
                    assert(bv[old_order[p as int] as int].mru <= bv[old_order[m - 1] as int].mru);
                }
            }
            assert forall|b: int| 0 <= b < i + 1 implies #[trigger] lists(order@, b) by {
                if b == i {
                    assert(order@[p as int] == b);
                } else {
                    assert(lists(old_order, b));
                    let m0 = choose|m: int| 0 <= m < old_order.len() && old_order[m] == b;
                    if m0 < p {
                        assert(order@[m0] == b);
                    } else {
                        assert(order@[m0 + 1] == b);
                    }
                }
            }
        }
        i = i + 1;
    }
    order
}

/// The titles of `books`, by ascending index of each book's latest record.
pub fn ordered_titles(books: &Vec<BookNotes>) -> (r: Vec<String>)
    ensures
        exists|order: Seq<usize>|
            is_recency_order(book_views(books@), order) && r.len() == order.len() && forall|i: int|
                0 <= i < r.len() ==> #[trigger] r@[i]@ == book_views(books@)[order[i] as int].title,
{
    let order = recency_order(books);
    let mut r: Vec<String> = Vec::new();
    let mut i: usize = 0;
    while i < order.len()
        invariant
            is_recency_order(book_views(books@), order@),
            i <= order.len(),
            r.len() == i,
            forall|m: int| 0 <= m < i ==> #[trigger] r@[m]@ == book_views(books@)[order@[m] as int].title,
        decreases order.len() - i,
    {
        assert(order@[i as int] < books.len());
        r.push(books[order[i]].title.clone());
        i = i + 1;
    }
    r
}

proof fn lemma_prefix_agrees(books: Seq<BookView>, o1: Seq<usize>, o2: Seq<usize>, i: int)
    requires
        is_recency_order(books, o1),
        is_recency_order(books, o2),
        distinct_mru(books),
        0 <= i <= o1.len(),
    ensures
        forall|j: int| 0 <= j < i ==> #[trigger] o1[j] == o2[j],
    decreases i,
{
    if i > 0 {
        let k = i - 1;
        lemma_prefix_agrees(books, o1, o2, k);
        let x = o1[k];
        let y = o2[k];
        if x != y {
            assert(lists(o2, x as int));
            assert(lists(o1, y as int));
            let p = choose|m: int| 0 <= m < o2.len() && o2[m] == x as int;
            let q = choose|m: int| 0 <= m < o1.len() && o1[m] == y as int;
            assert(books[x as int].mru != books[y as int].mru);
            if books[x as int].mru < books[y as int].mru {
                if p > k {
                    assert(books[o2[k] as int].mru <= books[o2[p] as int].mru);
                }
                assert(p < k);
                assert(o1[p] == o2[p]);
                assert(o1[p] != o1[k]);
            } else {
                if q > k {
                    assert(books[o1[k] as int].mru <= books[o1[q] as int].mru);
                }
                assert(q < k);
                assert(o2[q] == o1[q]);
                assert(o2[q] != o2[k]);
            }
        }
    }
}

/// Where no two books share the index of their latest record, one order
/// alone sorts them, and it sorts them strictly.
pub proof fn lemma_recency_order_unique(books: Seq<BookView>, o1: Seq<usize>, o2: Seq<usize>)
    requires
        is_recency_order(books, o1),
        is_recency_order(books, o2),
        distinct_mru(books),
    ensures
        o1 == o2,
        forall|i: int, j: int|
            0 <= i < j < o1.len() ==> #[trigger] books[o1[i] as int].mru < #[trigger] books[o1[j] as int].mru,
{
    lemma_prefix_agrees(books, o1, o2, o1.len() as int);
    assert(o1 =~= o2);
    assert forall|i: int, j: int| 0 <= i < j < o1.len() implies #[trigger] books[o1[i] as int].mru
        < #[trigger] books[o1[j] as int].mru by {
        let a = o1[i] as int;
        let b = o1[j] as int;
        assert(a != b);
        if a < b {
            assert(books[a].mru != books[b].mru);
        } else {
            assert(books[b].mru != books[a].mru);
        }
    }
}

/// The books of a log are ordered strictly by the index of their latest
/// record, and that order is the only one: reading the same log again gives
/// the titles in the same order.
pub proof fn lemma_log_order_determined(data: Seq<char>, o1: Seq<usize>, o2: Seq<usize>)
    requires
        is_recency_order(log_books(records(data)), o1),
        is_recency_order(log_books(records(data)), o2),
    ensures
        o1 == o2,
        forall|i: int, j: int|
            0 <= i < j < o1.len() ==> #[trigger] log_books(records(data))[o1[i] as int].mru
                < #[trigger] log_books(records(data))[o1[j] as int].mru,
{
    lemma_distinct_indices(records(data));
    lemma_recency_order_unique(log_books(records(data)), o1, o2);
}

/// The lowercase form of a string, as `str::to_lowercase` gives it.
pub uninterp spec fn str_lower(s: Seq<char>) -> Seq<char>;

/// Relies on `str::to_lowercase`: the lowercase form of a string, which
/// depends on its characters alone.
#[verifier::external_body]
fn lowercase(s: &str) -> (r: String)
    ensures
        r@ == str_lower(s@),
{
    s.to_lowercase()
}

/// Whether the lowercased title `lowered` contains `query`.
pub fn title_matches(lowered: &str, query: &str) -> (r: bool)
    ensures
        r == contains(lowered@, query@),
{
    let t = chars_of(lowered);
    let q = chars_of(query);
    proof {
        lemma_find_from(t@, q@, 0);
    }
    find(&t, &q, 0).is_some()
}

/// The titles of `ls` whose lowercase form contains `query`, in order.
pub open spec fn filtered(ls: Seq<Seq<char>>, query: Seq<char>) -> Seq<Seq<char>>
    decreases ls.len(),
{
    if ls.len() == 0 {
        seq![]
    } else if contains(str_lower(ls.last()), query) {
        filtered(ls.drop_last(), query).push(ls.last())
    } else {
        filtered(ls.drop_last(), query)
    }
}

/// The titles of `ls` whose lowercase form contains `query`, in order.
pub fn filter_titles(ls: &Vec<String>, query: &str) -> (r: Vec<String>)
    ensures
        r@.map_values(|t: String| t@) == filtered(ls@.map_values(|t: String| t@), query@),
{
    let ghost lv = ls@.map_values(|t: String| t@);
    let mut r: Vec<String> = Vec::new();
    let mut i: usize = 0;
    while i < ls.len()
        invariant
            i <= ls.len(),
            lv == ls@.map_values(|t: String| t@),
            r@.map_values(|t: String| t@) == filtered(lv.take(i as int), query@),
        decreases ls.len() - i,
    {
        let lowered = lowercase(ls[i].as_str());
        assert(lv.take(i + 1).drop_last() =~= lv.take(i as int));
        if title_matches(lowered.as_str(), query) {
            let ghost old_r = r@;
            r.push(ls[i].clone());
            assert(r@.map_values(|t: String| t@) =~= old_r.map_values(|t: String| t@).push(lv[i as int]));
        }
        i = i + 1;
    }
    assert(lv.take(ls.len() as int) =~= lv);
    r
}

} // verus!
