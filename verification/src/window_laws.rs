//! What holds of the windows that an order's cost is summed over.
use crate::bisection::degree;
use crate::degrees::{lemma_degree_of_member, lemma_degree_witness, lemma_occurrences_of_member};
use crate::forward_index::{doc_views, is_term_bound};
use crate::order_cost::{chunks, is_tally};
use vstd::prelude::*;

verus! {

/// Windows laid end to end are the order they are cut from, and nothing of it is left out.
pub proof fn windows_laid_end_to_end<T>(items: Seq<T>, size: int)
    requires
        size > 0,
    ensures
        chunks(items, size).flatten() == items,
    decreases items.len(),
{
    let windows = chunks(items, size);
    if items.len() == 0 {
        assert(windows.flatten() =~= items);
    } else if items.len() <= size {
        windows.lemma_flatten_one_element();
        assert(windows.flatten() =~= items);
    } else {
        let rest = chunks(items.skip(size), size);
        windows_laid_end_to_end(items.skip(size), size);
        assert(windows.first() == items.take(size));
        assert(windows.drop_first() =~= rest);
        assert(windows.flatten() =~= items);
    }
}

/// There are as many windows as it takes to hold every item: one fewer would not.
pub proof fn windows_are_as_many_as_it_takes<T>(items: Seq<T>, size: int)
    requires
        size > 0,
    ensures
        items.len() <= chunks(items, size).len() * size < items.len() + size,
        items.len() == 0 ==> chunks(items, size).len() == 0,
    decreases items.len(),
{
    let all = chunks(items, size).len() as int;
    if items.len() <= size {
        assert(all * size == if all == 0 {
            0
        } else {
            size
        }) by (nonlinear_arith)
            requires
                all == 0 || all == 1,
        ;
    } else {
        windows_are_as_many_as_it_takes(items.skip(size), size);
        let n = chunks(items.skip(size), size).len() as int;
        assert((n + 1) * size == n * size + size) by (nonlinear_arith);
        assert(chunks(items, size).len() == n + 1);
    }
}

/// Window `i` is the `i`-th run of `size` items, where there are so many: of every window but the
/// last just so many, and of the last what is left, which is one at the least.
pub proof fn a_window_is_a_run_of_the_order<T>(items: Seq<T>, size: int, i: int)
    requires
        size > 0,
        0 <= i < chunks(items, size).len(),
    ensures
        0 <= i * size < items.len(),
        i < chunks(items, size).len() - 1 ==> (i + 1) * size < items.len() && chunks(items, size)[i]
            == items.subrange(i * size, (i + 1) * size) && chunks(items, size)[i].len() == size,
        i == chunks(items, size).len() - 1 ==> items.len() <= (i + 1) * size && chunks(items, size)[i]
            == items.subrange(i * size, items.len() as int) && 1 <= chunks(items, size)[i].len() <= size,
    decreases items.len(),
{
    assert((i + 1) * size == i * size + size) by (nonlinear_arith);
    assert(i == 0 ==> i * size == 0) by (nonlinear_arith);
    if items.len() <= size {
        assert(chunks(items, size)[i] =~= items.subrange(0, items.len() as int));
    } else {
        let rest = items.skip(size);
        let later = chunks(rest, size);
        assert(rest.len() > 0);
        assert(later.len() > 0);
        if i == 0 {
            assert(chunks(items, size)[0] =~= items.subrange(0, size));
        } else {
            a_window_is_a_run_of_the_order(rest, size, i - 1);
            assert((i - 1) * size == i * size - size) by (nonlinear_arith);
            assert((i - 1 + 1) * size == i * size);
            assert(chunks(items, size)[i] == later[i - 1]);
            if i < chunks(items, size).len() - 1 {
                assert(rest.subrange((i - 1) * size, i * size) =~= items.subrange(i * size, (i + 1) * size));
            } else {
                assert(rest.subrange((i - 1) * size, rest.len() as int) =~= items.subrange(
                    i * size,
                    items.len() as int,
                ));
            }
        }
    }
}

/// Every place of the order stands in one window, at the same distance from its start.
pub proof fn every_place_is_in_a_window<T>(items: Seq<T>, size: int, k: int)
    requires
        size > 0,
        0 <= k < items.len(),
    ensures
        0 <= k / size < chunks(items, size).len(),
        0 <= k % size < chunks(items, size)[k / size].len(),
        chunks(items, size)[k / size][k % size] == items[k],
{
    let n = chunks(items, size).len() as int;
    let i = k / size;
    windows_are_as_many_as_it_takes(items, size);
    assert(k == i * size + k % size && 0 <= k % size < size && 0 <= i) by (nonlinear_arith)
        requires
            size > 0,
            0 <= k,
            i == k / size,
    ;
    assert(i < n) by (nonlinear_arith)
        requires
            i * size <= k,
            k < n * size,
            size > 0,
    ;
    a_window_is_a_run_of_the_order(items, size, i);
    let end = if i < n - 1 {
        (i + 1) * size
    } else {
        items.len() as int
    };
    assert((i + 1) * size == i * size + size) by (nonlinear_arith);
    assert(chunks(items, size)[i] == items.subrange(i * size, end));
    assert(items.subrange(i * size, end)[k % size] == items[i * size + k % size]);
}

/// The tally of a window names every term of every document in it, no other, and none twice.
pub proof fn a_tally_names_each_term_once(
    docs: Seq<Seq<u32>>,
    window: Seq<u32>,
    tally: Seq<(u32, u32)>,
    t: u32,
)
    requires
        is_tally(docs, window, tally),
    ensures
        (exists|i: int| 0 <= i < tally.len() && (#[trigger] tally[i]).0 == t) <==> (exists|j: int|
            0 <= j < window.len() && docs[#[trigger] window[j] as int].contains(t)),
        forall|i: int, j: int|
            0 <= i < tally.len() && 0 <= j < tally.len() && (#[trigger] tally[i]).0 == t && (#[trigger] tally[j]).0
                == t ==> i == j,
        forall|i: int|
            0 <= i < tally.len() && (#[trigger] tally[i]).0 == t ==> tally[i].1 == degree(docs, window, t),
{
    if exists|i: int| 0 <= i < tally.len() && (#[trigger] tally[i]).0 == t {
        lemma_degree_witness(docs, window, t);
    }
    if exists|j: int| 0 <= j < window.len() && docs[#[trigger] window[j] as int].contains(t) {
        let j = choose|j: int| 0 <= j < window.len() && docs[#[trigger] window[j] as int].contains(t);
        let doc = docs[window[j] as int];
        let k = choose|k: int| 0 <= k < doc.len() && doc[k] == t;
        lemma_occurrences_of_member(doc, k);
        lemma_degree_of_member(docs, window, j, t);
        assert(degree(docs, window, t) > 0);
    }
    assert forall|i: int, j: int|
        0 <= i < tally.len() && 0 <= j < tally.len() && (#[trigger] tally[i]).0 == t && (#[trigger] tally[j]).0
            == t implies i == j by {
        if i < j {
            assert(tally[i].0 != tally[j].0);
        } else if j < i {
            assert(tally[j].0 != tally[i].0);
        }
    }
}

/// The term lists of vectors are what each holds, in turn.
pub proof fn term_lists_are_what_the_vectors_hold(docs: Seq<Vec<u32>>, d: int)
    requires
        0 <= d < docs.len(),
    ensures
        doc_views(docs).len() == docs.len(),
        doc_views(docs)[d] == docs[d]@,
{
}

/// The term bound is the least number that every term is below.
pub proof fn the_term_bound_is_least(docs: Seq<Seq<u32>>, n: int, m: int)
    requires
        is_term_bound(docs, n),
        0 <= m,
    ensures
        0 <= n,
        n <= m <==> forall|d: int, i: int|
            0 <= d < docs.len() && 0 <= i < docs[d].len() ==> #[trigger] docs[d][i] < m,
{
    if n != 0 {
        let (d, i) = choose|d: int, i: int|
            0 <= d < docs.len() && 0 <= i < docs[d].len() && #[trigger] docs[d][i] == n - 1;
        assert(docs[d][i] == n - 1);
    }
}

} // verus!
