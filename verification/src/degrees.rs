//! Facts about how often the documents of a half carry a term.
use crate::bisection::{countable, degree, distinct_docs, occurrences};
use crate::forward_index::entries;
use vstd::prelude::*;

verus! {

/// A term stands in a list at most as often as the list is long.
pub proof fn lemma_occurrences_bounded(terms: Seq<u32>, t: u32)
    ensures
        occurrences(terms, t) <= terms.len(),
    decreases terms.len(),
{
    if terms.len() > 0 {
        lemma_occurrences_bounded(terms.drop_last(), t);
    }
}

/// A prefix of a list holds a term at most as often as the whole list.
pub proof fn lemma_occurrences_prefix(terms: Seq<u32>, n: int, t: u32)
    requires
        0 <= n <= terms.len(),
    ensures
        occurrences(terms.take(n), t) <= occurrences(terms, t),
    decreases terms.len() - n,
{
    if n < terms.len() {
        lemma_occurrences_prefix(terms, n + 1, t);
        assert(terms.take(n + 1).drop_last() =~= terms.take(n));
    } else {
        assert(terms.take(n) =~= terms);
    }
}

/// A term that stands in a list occurs in it.
pub proof fn lemma_occurrences_of_member(terms: Seq<u32>, k: int)
    requires
        0 <= k < terms.len(),
    ensures
        occurrences(terms, terms[k]) > 0,
    decreases terms.len(),
{
    if k < terms.len() - 1 {
        lemma_occurrences_of_member(terms.drop_last(), k);
    }
}

/// A list that holds a term has a place where it stands.
pub proof fn lemma_occurrences_witness(terms: Seq<u32>, t: u32)
    requires
        occurrences(terms, t) > 0,
    ensures
        terms.contains(t),
    decreases terms.len(),
{
    if terms.last() == t {
        assert(terms[terms.len() - 1] == t);
    } else {
        lemma_occurrences_witness(terms.drop_last(), t);
        let k = choose|k: int| 0 <= k < terms.drop_last().len() && terms.drop_last()[k] == t;
        assert(terms[k] == t);
    }
}

/// The degrees of two halves add up.
pub proof fn lemma_degree_concat(docs: Seq<Seq<u32>>, a: Seq<u32>, b: Seq<u32>, t: u32)
    ensures
        degree(docs, a + b, t) == degree(docs, a, t) + degree(docs, b, t),
    decreases b.len(),
{
    if b.len() == 0 {
        assert(a + b =~= a);
    } else {
        assert((a + b).drop_last() =~= a + b.drop_last());
        lemma_degree_concat(docs, a, b.drop_last(), t);
    }
}

/// The degree of a half, with the document at `i` counted on its own.
pub proof fn lemma_degree_isolate(docs: Seq<Seq<u32>>, s: Seq<u32>, i: int, t: u32)
    requires
        0 <= i < s.len(),
    ensures
        degree(docs, s, t) == degree(docs, s.remove(i), t) + occurrences(docs[s[i] as int], t),
        s.remove(i) =~= s.take(i) + s.skip(i + 1),
{
    let one = seq![s[i]];
    assert(s =~= s.take(i) + one + s.skip(i + 1));
    lemma_degree_concat(docs, s.take(i) + one, s.skip(i + 1), t);
    lemma_degree_concat(docs, s.take(i), one, t);
    assert(one.drop_last() =~= Seq::<u32>::empty());
    assert(degree(docs, one, t) == degree(docs, one.drop_last(), t) + occurrences(
        docs[one.last() as int],
        t,
    ));
    assert(s.remove(i) =~= s.take(i) + s.skip(i + 1));
    lemma_degree_concat(docs, s.take(i), s.skip(i + 1), t);
}

/// A half carries a term at least as often as any one of its documents does.
pub proof fn lemma_degree_of_member(docs: Seq<Seq<u32>>, s: Seq<u32>, i: int, t: u32)
    requires
        0 <= i < s.len(),
    ensures
        occurrences(docs[s[i] as int], t) <= degree(docs, s, t),
{
    lemma_degree_isolate(docs, s, i, t);
}

/// Putting another document at `i` trades that one's occurrences for the other's.
pub proof fn lemma_degree_update(docs: Seq<Seq<u32>>, s: Seq<u32>, i: int, d: u32, t: u32)
    requires
        0 <= i < s.len(),
    ensures
        degree(docs, s.update(i, d), t) + occurrences(docs[s[i] as int], t) == degree(docs, s, t)
            + occurrences(docs[d as int], t),
{
    lemma_degree_isolate(docs, s, i, t);
    lemma_degree_isolate(docs, s.update(i, d), i, t);
    assert(s.remove(i) =~= s.update(i, d).remove(i));
}

/// A half's degree depends only on its own documents.
proof fn lemma_degree_agree(a: Seq<Seq<u32>>, b: Seq<Seq<u32>>, half: Seq<u32>, t: u32)
    requires
        forall|i: int| 0 <= i < half.len() ==> a[#[trigger] half[i] as int] == b[half[i] as int],
    ensures
        degree(a, half, t) == degree(b, half, t),
    decreases half.len(),
{
    if half.len() > 0 {
        assert(half[half.len() - 1] == half.last());
        assert forall|i: int| 0 <= i < half.drop_last().len() implies a[#[trigger] half.drop_last()[i] as int]
            == b[half.drop_last()[i] as int] by {
            assert(half.drop_last()[i] == half[i]);
        }
        lemma_degree_agree(a, b, half.drop_last(), t);
    }
}

/// Distinct documents carry a term at most as often as the index holds term ids.
pub proof fn lemma_degree_bounded(docs: Seq<Seq<u32>>, order: Seq<u32>, t: u32)
    requires
        distinct_docs(docs, order),
    ensures
        degree(docs, order, t) <= entries(docs),
    decreases docs.len(),
{
    if docs.len() == 0 {
        if order.len() > 0 {
            assert(order[0] < docs.len());
        }
    } else {
        let fewer = docs.drop_last();
        let last = docs.len() - 1;
        if exists|i: int| 0 <= i < order.len() && #[trigger] order[i] == last {
            let i = choose|i: int| 0 <= i < order.len() && #[trigger] order[i] == last;
            let rest = order.remove(i);
            lemma_degree_isolate(docs, order, i, t);
            assert forall|j: int| 0 <= j < rest.len() implies #[trigger] rest[j] < fewer.len() by {
                let at = if j < i {
                    j
                } else {
                    j + 1
                };
                assert(rest[j] == order[at]);
                assert(order[at] != order[i]);
            }
            assert(rest.no_duplicates());
            lemma_degree_agree(docs, fewer, rest, t);
            lemma_degree_bounded(fewer, rest, t);
            lemma_occurrences_bounded(docs.last(), t);
        } else {
            assert forall|j: int| 0 <= j < order.len() implies #[trigger] order[j] < fewer.len() by {
                assert(order[j] != last);
            }
            lemma_degree_agree(docs, fewer, order, t);
            lemma_degree_bounded(fewer, order, t);
        }
    }
}

/// A term that a half carries stands in one of its documents.
pub proof fn lemma_degree_witness(docs: Seq<Seq<u32>>, half: Seq<u32>, t: u32)
    requires
        degree(docs, half, t) > 0,
    ensures
        exists|i: int| 0 <= i < half.len() && docs[#[trigger] half[i] as int].contains(t),
    decreases half.len(),
{
    if occurrences(docs[half.last() as int], t) > 0 {
        lemma_occurrences_witness(docs[half.last() as int], t);
        assert(half[half.len() - 1] == half.last());
    } else {
        lemma_degree_witness(docs, half.drop_last(), t);
        let i = choose|i: int|
            0 <= i < half.drop_last().len() && docs[#[trigger] half.drop_last()[i] as int].contains(t);
        assert(half[i] == half.drop_last()[i]);
    }
}

/// How often documents hold a term does not depend on their order.
pub proof fn lemma_degree_rearranged(docs: Seq<Seq<u32>>, a: Seq<u32>, b: Seq<u32>, t: u32)
    requires
        a.to_multiset() == b.to_multiset(),
    ensures
        degree(docs, a, t) == degree(docs, b, t),
    decreases a.len(),
{
    vstd::seq_lib::to_multiset_len(a);
    vstd::seq_lib::to_multiset_len(b);
    if a.len() > 0 {
        let x = a.last();
        assert(a.contains(x)) by {
            assert(a[a.len() - 1] == x);
        }
        vstd::seq_lib::to_multiset_contains(a, x);
        vstd::seq_lib::to_multiset_contains(b, x);
        let i = choose|i: int| 0 <= i < b.len() && b[i] == x;
        vstd::seq_lib::to_multiset_remove(a, a.len() - 1);
        vstd::seq_lib::to_multiset_remove(b, i);
        assert(a.remove(a.len() - 1) =~= a.drop_last());
        lemma_degree_rearranged(docs, a.drop_last(), b.remove(i), t);
        lemma_degree_isolate(docs, b, i, t);
    }
}

/// Documents that can be counted can be in any order.
pub proof fn lemma_countable_rearranged(docs: Seq<Seq<u32>>, a: Seq<u32>, b: Seq<u32>)
    requires
        countable(docs, a),
        a.to_multiset() == b.to_multiset(),
    ensures
        countable(docs, b),
{
    assert forall|i: int| 0 <= i < b.len() implies #[trigger] b[i] < docs.len() by {
        assert(b.contains(b[i]));
        vstd::seq_lib::to_multiset_contains(b, b[i]);
        vstd::seq_lib::to_multiset_contains(a, b[i]);
        let j = choose|j: int| 0 <= j < a.len() && a[j] == b[i];
        assert(a[j] < docs.len());
    }
    assert forall|t: u32| #[trigger] degree(docs, b, t) <= u32::MAX by {
        lemma_degree_rearranged(docs, a, b, t);
        assert(degree(docs, a, t) <= u32::MAX);
    }
}

} // verus!
