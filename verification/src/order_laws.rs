//! What the order of documents must satisfy, however it comes about.
use crate::arith::{
    cost_of_term, eval, is_arithmetic, minus, not_positive, order_key, plus, ranks_before, CostOp,
};
use crate::bisection::{
    arrival_order, carried_terms, countable, degree, distinct_docs, gain_of_move, gains,
    moves_throughout, occurrences, paying_pairs, ranking, refined, round, round_swaps, rounds_run,
    split_order, storage_order, sum_of_gains, swapped, swaps_made, term_gain,
};
use crate::bisection_laws::{
    lemma_paying_bounded, lemma_ranked_positions, lemma_ranking, refined_keeps_documents,
    split_order_is_permutation, sums_keep_order,
};
use crate::degrees::{lemma_degree_of_member, lemma_degree_witness, lemma_occurrences_of_member};
use crate::forward_index::{entries, no_shared_term};
use crate::reorder::{
    are_reports, is_cost_table, is_degree_table, is_refinement, table_sum, Refinement, SplitReport,
};
use vstd::prelude::*;

verus! {

/// A term occurs in a list as often as it stands there.
pub proof fn occurrences_are_counted(terms: Seq<u32>, t: u32)
    ensures
        occurrences(terms, t) == terms.filter(|x: u32| x == t).len(),
    decreases terms.len(),
{
    reveal(Seq::filter);
    if terms.len() > 0 {
        occurrences_are_counted(terms.drop_last(), t);
    }
}

/// The degree of a term in a half is how often it stands in the half's documents, laid end to end.
pub proof fn degrees_are_counted(docs: Seq<Seq<u32>>, half: Seq<u32>, t: u32)
    ensures
        degree(docs, half, t) == half.map_values(|d: u32| docs[d as int]).flatten().filter(
            |x: u32| x == t,
        ).len(),
    decreases half.len(),
{
    let lists = half.map_values(|d: u32| docs[d as int]);
    lists.lemma_flatten_and_flatten_alt_are_equivalent();
    reveal(Seq::filter);
    if half.len() > 0 {
        let fewer = half.drop_last();
        degrees_are_counted(docs, fewer, t);
        assert(lists.drop_last() =~= fewer.map_values(|d: u32| docs[d as int]));
        lists.drop_last().lemma_flatten_and_flatten_alt_are_equivalent();
        let last = docs[half.last() as int];
        assert(lists.last() == last);
        occurrences_are_counted(last, t);
        Seq::filter_distributes_over_add(lists.drop_last().flatten(), last, |x: u32| x == t);
        assert(lists.flatten() == lists.drop_last().flatten() + last);
    }
}

/// The terms of some documents are those that stand in one of them.
pub proof fn carried_terms_stand_in_documents(docs: Seq<Seq<u32>>, order: Seq<u32>, t: u32)
    requires
        forall|i: int| 0 <= i < order.len() ==> #[trigger] order[i] < docs.len(),
    ensures
        carried_terms(docs, order).contains(t) <==> exists|i: int|
            0 <= i < order.len() && docs[#[trigger] order[i] as int].contains(t),
{
    if degree(docs, order, t) > 0 {
        lemma_degree_witness(docs, order, t);
    }
    if exists|i: int| 0 <= i < order.len() && docs[#[trigger] order[i] as int].contains(t) {
        let i = choose|i: int| 0 <= i < order.len() && docs[#[trigger] order[i] as int].contains(t);
        let doc = docs[order[i] as int];
        let k = choose|k: int| 0 <= k < doc.len() && doc[k] == t;
        lemma_occurrences_of_member(doc, k);
        lemma_degree_of_member(docs, order, i, t);
    }
}

/// The term ids of some documents are as many as stand in them, laid end to end.
pub proof fn entries_are_counted(docs: Seq<Seq<u32>>)
    ensures
        entries(docs) == docs.flatten().len(),
    decreases docs.len(),
{
    docs.lemma_flatten_and_flatten_alt_are_equivalent();
    if docs.len() > 0 {
        entries_are_counted(docs.drop_last());
        docs.drop_last().lemma_flatten_and_flatten_alt_are_equivalent();
    }
}

/// What the arithmetic answers is what it is said to: the sum, the difference and the cost of a term
/// are its answers, and a term that nothing carries costs nothing.
pub proof fn arithmetic_answers<F: Fn(CostOp) -> u32>(ops: F, a: u32, b: u32, r: u32)
    requires
        is_arithmetic(ops),
    ensures
        ops.ensures((CostOp::Add(a, b),), r) ==> plus(ops, a, b) == r,
        ops.ensures((CostOp::Sub(a, b),), r) ==> minus(ops, a, b) == r,
        a > 0 && ops.ensures((CostOp::TermCost { deg: a, size: b },), r) ==> cost_of_term(ops, a, b) == r,
        cost_of_term(ops, 0, b) == 0u32,
{
}

/// A number is at most zero where its magnitude is nothing, or its sign is set and it is no more
/// than infinite.
pub proof fn at_most_zero_by_sign_and_magnitude(bits: u32)
    ensures
        not_positive(bits) <==> (bits & 0x7fff_ffff == 0 || (bits & 0x8000_0000 != 0 && bits & 0x7fff_ffff
            <= 0x7f80_0000)),
{
    assert((bits == 0 || (0x8000_0000 <= bits && bits <= 0xff80_0000)) <==> (bits & 0x7fff_ffff == 0 || (
    bits & 0x8000_0000 != 0 && bits & 0x7fff_ffff <= 0x7f80_0000))) by (bit_vector);
}

/// Of two numbers the one with the greater magnitude comes later where both are positive, earlier
/// where both are negative, and a negative one comes before a positive one.
pub proof fn numbers_are_ordered_by_sign_and_magnitude(a: u32, b: u32)
    ensures
        a < 0x8000_0000 && b < 0x8000_0000 ==> (order_key(a) < order_key(b) <==> a < b),
        a >= 0x8000_0000 && b >= 0x8000_0000 ==> (order_key(a) < order_key(b) <==> b < a),
        a >= 0x8000_0000 && b < 0x8000_0000 ==> order_key(a) < order_key(b),
        order_key(a) == order_key(b) ==> a == b,
{
}

/// What a move gains is what the half that is left saves, less what the half that is entered pays.
pub proof fn a_gain_is_saved_less_paid<F: Fn(CostOp) -> u32>(
    ops: F,
    docs: Seq<Seq<u32>>,
    here: Seq<u32>,
    there: Seq<u32>,
    t: u32,
    left_alone: u32,
    one_fewer: u32,
    as_it_is: u32,
    one_more: u32,
)
    requires
        degree(docs, here, t) > 0,
        left_alone == eval(
            ops,
            CostOp::TermCost { deg: degree(docs, here, t) as u32, size: here.len() as u32 },
        ),
        one_fewer == if degree(docs, here, t) == 1 {
            0u32
        } else {
            eval(
                ops,
                CostOp::TermCost { deg: (degree(docs, here, t) - 1) as u32, size: here.len() as u32 },
            )
        },
        as_it_is == if degree(docs, there, t) == 0 {
            0u32
        } else {
            eval(
                ops,
                CostOp::TermCost { deg: degree(docs, there, t) as u32, size: there.len() as u32 },
            )
        },
        one_more == eval(
            ops,
            CostOp::TermCost { deg: (degree(docs, there, t) + 1) as u32, size: there.len() as u32 },
        ),
        degree(docs, here, t) <= u32::MAX,
        degree(docs, there, t) < u32::MAX,
    ensures
        term_gain(ops, docs, here, there, t) == eval(
            ops,
            CostOp::Sub(
                eval(ops, CostOp::Add(eval(ops, CostOp::Sub(left_alone, one_fewer)), as_it_is)),
                one_more,
            ),
        ),
{
}

/// A document gains what its terms do, added up from zero in the order they stand.
pub proof fn a_document_gains_what_its_terms_do<F: Fn(CostOp) -> u32>(
    ops: F,
    docs: Seq<Seq<u32>>,
    here: Seq<u32>,
    there: Seq<u32>,
    terms: Seq<u32>,
)
    ensures
        sum_of_gains(ops, docs, here, there, terms) == terms.fold_left(
            0u32,
            |sum: u32, t: u32| eval(ops, CostOp::Add(sum, term_gain(ops, docs, here, there, t))),
        ),
    decreases terms.len(),
{
    if terms.len() > 0 {
        a_document_gains_what_its_terms_do(ops, docs, here, there, terms.drop_last());
    }
}

/// The entries of a table at some terms are added up from zero in the order they stand.
pub proof fn table_entries_are_added_up<F: Fn(CostOp) -> u32>(ops: F, table: Seq<u32>, terms: Seq<u32>)
    ensures
        table_sum(ops, table, terms) == terms.fold_left(
            0u32,
            |sum: u32, t: u32| eval(ops, CostOp::Add(sum, table[t as int])),
        ),
    decreases terms.len(),
{
    if terms.len() > 0 {
        table_entries_are_added_up(ops, table, terms.drop_last());
    }
}

/// Every document of a half is ranked, with what its move would gain and its place.
pub proof fn every_document_is_ranked<F: Fn(CostOp) -> u32>(
    ops: F,
    docs: Seq<Seq<u32>>,
    here: Seq<u32>,
    there: Seq<u32>,
    i: int,
)
    requires
        0 <= i < here.len() <= u32::MAX,
    ensures
        ranking(gains(ops, docs, here, there)).len() == here.len(),
        ranking(gains(ops, docs, here, there)).contains(
            (sum_of_gains(ops, docs, here, there, docs[here[i] as int]), i as u32),
        ),
{
    let pairs = gains(ops, docs, here, there);
    lemma_ranking(pairs);
    assert(pairs[i] == (sum_of_gains(ops, docs, here, there, docs[here[i] as int]), i as u32));
    assert(pairs.contains(pairs[i]));
    vstd::seq_lib::to_multiset_contains(pairs, pairs[i]);
    vstd::seq_lib::to_multiset_contains(ranking(pairs), pairs[i]);
}

/// No two documents of a ranking have one place.
proof fn lemma_places_differ<F: Fn(CostOp) -> u32>(
    ops: F,
    docs: Seq<Seq<u32>>,
    here: Seq<u32>,
    there: Seq<u32>,
    a: int,
    b: int,
)
    requires
        here.len() <= u32::MAX,
        0 <= a < b < here.len(),
    ensures
        ranking(gains(ops, docs, here, there)).len() == here.len(),
        ranking(gains(ops, docs, here, there))[a].1 != ranking(gains(ops, docs, here, there))[b].1,
{
    let pairs = gains(ops, docs, here, there);
    let ranked = ranking(pairs);
    lemma_ranking(pairs);
    assert(pairs.no_duplicates()) by {
        assert forall|i: int, j: int| 0 <= i < pairs.len() && 0 <= j < pairs.len() && i != j implies pairs[i]
            != pairs[j] by {
            assert(pairs[i].1 == i as u32 && pairs[j].1 == j as u32);
        }
    }
    pairs.lemma_multiset_has_no_duplicates();
    ranked.lemma_multiset_has_no_duplicates_conv();
    if ranked[a].1 == ranked[b].1 {
        assert(ranked.contains(ranked[a]) && ranked.contains(ranked[b]));
        vstd::seq_lib::to_multiset_contains(ranked, ranked[a]);
        vstd::seq_lib::to_multiset_contains(ranked, ranked[b]);
        vstd::seq_lib::to_multiset_contains(pairs, ranked[a]);
        vstd::seq_lib::to_multiset_contains(pairs, ranked[b]);
        let i = choose|i: int| 0 <= i < pairs.len() && pairs[i] == ranked[a];
        let j = choose|j: int| 0 <= j < pairs.len() && pairs[j] == ranked[b];
        assert(pairs[i].1 == i as u32 && pairs[j].1 == j as u32);
        assert(i == j);
    }
}

/// A ranking goes from the highest gain down, and documents that gain the same stand by place.
pub proof fn rankings_go_down<F: Fn(CostOp) -> u32>(
    ops: F,
    docs: Seq<Seq<u32>>,
    here: Seq<u32>,
    there: Seq<u32>,
    a: int,
    b: int,
)
    requires
        here.len() <= u32::MAX,
        0 <= a < b < here.len(),
    ensures
        ({
            let ranked = ranking(gains(ops, docs, here, there));
            order_key(ranked[a].0) > order_key(ranked[b].0) || order_key(ranked[a].0) == order_key(ranked[b].0)
                && ranked[a].1 < ranked[b].1
        }),
{
    let pairs = gains(ops, docs, here, there);
    let ranked = ranking(pairs);
    lemma_ranking(pairs);
    lemma_ranked_positions(ops, docs, here, there);
    let leq = |x: (u32, u32), y: (u32, u32)| ranks_before(x, y);
    assert(leq(ranked[a], ranked[b]));
    lemma_places_differ(ops, docs, here, there, a, b);
}

/// As many leading pairs of two rankings are swapped as stand before the first whose gains do not
/// add up to more than zero.
pub proof fn pairs_are_swapped_while_they_pay<F: Fn(CostOp) -> u32>(
    ops: F,
    left: Seq<(u32, u32)>,
    right: Seq<(u32, u32)>,
    k: int,
)
    ensures
        ({
            let n = paying_pairs(ops, left, right, 0) as int;
            &&& n <= left.len() && n <= right.len()
            &&& 0 <= k < n ==> !not_positive(eval(ops, CostOp::Add(left[k].0, right[k].0)))
            &&& n < left.len() && n < right.len() ==> not_positive(
                eval(ops, CostOp::Add(left[n].0, right[n].0)),
            )
        }),
{
    lemma_paying_run(ops, left, right, 0, k);
}

proof fn lemma_paying_run<F: Fn(CostOp) -> u32>(
    ops: F,
    left: Seq<(u32, u32)>,
    right: Seq<(u32, u32)>,
    from: int,
    k: int,
)
    requires
        0 <= from,
        from <= left.len(),
        from <= right.len(),
    ensures
        ({
            let n = from + paying_pairs(ops, left, right, from);
            &&& n <= left.len() && n <= right.len()
            &&& from <= k < n ==> !not_positive(eval(ops, CostOp::Add(left[k].0, right[k].0)))
            &&& n < left.len() && n < right.len() ==> not_positive(
                eval(ops, CostOp::Add(left[n].0, right[n].0)),
            )
        }),
    decreases left.len() - from,
{
    if from < left.len() && from < right.len() && !not_positive(plus(ops, left[from].0, right[from].0)) {
        lemma_paying_run(ops, left, right, from + 1, k);
    }
}

/// A round swaps the documents at its paying pairs, and moves no other: the documents at the `k`-th
/// places of the two rankings change places where that pair is swapped, and every document at a
/// place that no swapped pair names stays.
pub proof fn a_round_swaps_its_paying_pairs<F: Fn(CostOp) -> u32>(
    ops: F,
    docs: Seq<Seq<u32>>,
    left: Seq<u32>,
    right: Seq<u32>,
)
    requires
        left.len() <= u32::MAX,
        right.len() <= u32::MAX,
    ensures
        ({
            let lr = ranking(gains(ops, docs, left, right));
            let rr = ranking(gains(ops, docs, right, left));
            let n = paying_pairs(ops, lr, rr, 0) as int;
            let (l, r) = round(ops, docs, left, right);
            &&& round_swaps(ops, docs, left, right) == n
            &&& l.len() == left.len()
            &&& r.len() == right.len()
            &&& forall|k: int|
                0 <= k < n ==> l[(#[trigger] lr[k]).1 as int] == right[rr[k].1 as int] && r[rr[k].1 as int]
                    == left[lr[k].1 as int]
            &&& forall|i: int|
                0 <= i < left.len() && (forall|k: int| 0 <= k < n ==> (#[trigger] lr[k]).1 != i)
                    ==> #[trigger] l[i] == left[i]
            &&& forall|i: int|
                0 <= i < right.len() && (forall|k: int| 0 <= k < n ==> (#[trigger] rr[k]).1 != i)
                    ==> #[trigger] r[i] == right[i]
        }),
{
    let lr = ranking(gains(ops, docs, left, right));
    let rr = ranking(gains(ops, docs, right, left));
    lemma_ranked_positions(ops, docs, left, right);
    lemma_ranked_positions(ops, docs, right, left);
    lemma_paying_bounded(ops, lr, rr, 0);
    lemma_ranking(gains(ops, docs, left, right));
    lemma_ranking(gains(ops, docs, right, left));
    assert forall|j: int, k: int| 0 <= j < k < lr.len() implies (#[trigger] lr[j]).1 != (#[trigger] lr[k]).1 by {
        lemma_places_differ(ops, docs, left, right, j, k);
    }
    assert forall|j: int, k: int| 0 <= j < k < rr.len() implies (#[trigger] rr[j]).1 != (#[trigger] rr[k]).1 by {
        lemma_places_differ(ops, docs, right, left, j, k);
    }
    lemma_swapped_places(left, right, lr, rr, paying_pairs(ops, lr, rr, 0));
}

proof fn lemma_swapped_places(
    left: Seq<u32>,
    right: Seq<u32>,
    lr: Seq<(u32, u32)>,
    rr: Seq<(u32, u32)>,
    n: nat,
)
    requires
        n <= lr.len(),
        n <= rr.len(),
        forall|k: int| 0 <= k < lr.len() ==> (#[trigger] lr[k]).1 < left.len(),
        forall|k: int| 0 <= k < rr.len() ==> (#[trigger] rr[k]).1 < right.len(),
        forall|j: int, k: int| 0 <= j < k < lr.len() ==> (#[trigger] lr[j]).1 != (#[trigger] lr[k]).1,
        forall|j: int, k: int| 0 <= j < k < rr.len() ==> (#[trigger] rr[j]).1 != (#[trigger] rr[k]).1,
    ensures
        ({
            let (l, r) = swapped(left, right, lr, rr, n);
            &&& l.len() == left.len()
            &&& r.len() == right.len()
            &&& forall|k: int|
                0 <= k < n ==> l[(#[trigger] lr[k]).1 as int] == right[rr[k].1 as int] && r[rr[k].1 as int]
                    == left[lr[k].1 as int]
            &&& forall|i: int|
                0 <= i < left.len() && (forall|k: int| 0 <= k < n ==> (#[trigger] lr[k]).1 != i)
                    ==> #[trigger] l[i] == left[i]
            &&& forall|i: int|
                0 <= i < right.len() && (forall|k: int| 0 <= k < n ==> (#[trigger] rr[k]).1 != i)
                    ==> #[trigger] r[i] == right[i]
        }),
    decreases n,
{
    if n > 0 {
        let m = (n - 1) as nat;
        lemma_swapped_places(left, right, lr, rr, m);
        let (l0, r0) = swapped(left, right, lr, rr, m);
        let (l, r) = swapped(left, right, lr, rr, n);
        let li = lr[n - 1].1 as int;
        let ri = rr[n - 1].1 as int;
        assert(l0[li] == left[li]) by {
            assert forall|k: int| 0 <= k < m implies (#[trigger] lr[k]).1 != li by {
                assert(lr[k].1 != lr[n - 1].1);
            }
        }
        assert(r0[ri] == right[ri]) by {
            assert forall|k: int| 0 <= k < m implies (#[trigger] rr[k]).1 != ri by {
                assert(rr[k].1 != rr[n - 1].1);
            }
        }
        assert forall|k: int| 0 <= k < n implies l[(#[trigger] lr[k]).1 as int] == right[rr[k].1 as int]
            && r[rr[k].1 as int] == left[lr[k].1 as int] by {
            if k < m {
                assert(lr[k].1 != lr[n - 1].1);
                assert(rr[k].1 != rr[n - 1].1);
            }
        }
        assert forall|i: int|
            0 <= i < left.len() && (forall|k: int| 0 <= k < n ==> (#[trigger] lr[k]).1 != i) implies #[trigger] l[i]
            == left[i] by {
            assert(lr[n - 1].1 != i);
            assert(l0[i] == left[i]);
        }
        assert forall|i: int|
            0 <= i < right.len() && (forall|k: int| 0 <= k < n ==> (#[trigger] rr[k]).1 != i) implies #[trigger] r[i]
            == right[i] by {
            assert(rr[n - 1].1 != i);
            assert(r0[i] == right[i]);
        }
    }
}

/// A ranking holds the pairs it ranks, each as often, from the highest gain down, pairs with one gain
/// by place.
pub proof fn a_ranking_sorts_its_pairs(pairs: Seq<(u32, u32)>, a: int, b: int)
    ensures
        ranking(pairs).to_multiset() == pairs.to_multiset(),
        ranking(pairs).len() == pairs.len(),
        0 <= a < b < pairs.len() ==> order_key(ranking(pairs)[a].0) > order_key(ranking(pairs)[b].0)
            || ranking(pairs)[a].0 == ranking(pairs)[b].0 && ranking(pairs)[a].1 <= ranking(pairs)[b].1,
{
    lemma_ranking(pairs);
    let leq = |x: (u32, u32), y: (u32, u32)| ranks_before(x, y);
    if 0 <= a < b < pairs.len() {
        assert(leq(ranking(pairs)[a], ranking(pairs)[b]));
    }
}

/// Between halves that a round leaves as they are no document of the one and document of the other
/// gain more than zero together, where sums of gains keep their order.
pub proof fn where_nothing_moves_no_pair_pays<F: Fn(CostOp) -> u32>(
    ops: F,
    docs: Seq<Seq<u32>>,
    left: Seq<u32>,
    right: Seq<u32>,
    i: int,
    j: int,
)
    requires
        left.len() <= u32::MAX,
        right.len() <= u32::MAX,
        round_swaps(ops, docs, left, right) == 0,
        sums_keep_order(
            ops,
            ranking(gains(ops, docs, left, right)),
            ranking(gains(ops, docs, right, left)),
        ),
        0 <= i < left.len(),
        0 <= j < right.len(),
    ensures
        not_positive(
            eval(
                ops,
                CostOp::Add(
                    sum_of_gains(ops, docs, left, right, docs[left[i] as int]),
                    sum_of_gains(ops, docs, right, left, docs[right[j] as int]),
                ),
            ),
        ),
{
    let lr = ranking(gains(ops, docs, left, right));
    let rr = ranking(gains(ops, docs, right, left));
    every_document_is_ranked(ops, docs, left, right, i);
    every_document_is_ranked(ops, docs, right, left, j);
    pairs_are_swapped_while_they_pay(ops, lr, rr, 0);
    a_round_swaps_its_paying_pairs(ops, docs, left, right);
    let x = (sum_of_gains(ops, docs, left, right, docs[left[i] as int]), i as u32);
    let y = (sum_of_gains(ops, docs, right, left, docs[right[j] as int]), j as u32);
    let a = choose|a: int| 0 <= a < lr.len() && lr[a] == x;
    let b = choose|b: int| 0 <= b < rr.len() && rr[b] == y;
    assert(not_positive(plus(ops, lr[0].0, rr[0].0)));
    if a > 0 {
        rankings_go_down(ops, docs, left, right, 0, a);
    }
    if b > 0 {
        rankings_go_down(ops, docs, right, left, 0, b);
    }
    assert(not_positive(plus(ops, lr[a].0, rr[b].0)));
}

/// A refinement is so many rounds, each of which moves documents: all it may run, or as many as it
/// takes until a round would move nothing. `steps` are the halves before the first round and after
/// each, and `sums` how many pairs were swapped until then.
pub proof fn a_refinement_is_rounds<F: Fn(CostOp) -> u32>(
    ops: F,
    docs: Seq<Seq<u32>>,
    left: Seq<u32>,
    right: Seq<u32>,
    rounds: nat,
) -> (r: (Seq<(Seq<u32>, Seq<u32>)>, Seq<nat>))
    ensures
        ({
            let (steps, sums) = r;
            let moved = steps.len() - 1;
            &&& 0 <= moved <= rounds
            &&& sums.len() == steps.len()
            &&& steps[0] == (left, right)
            &&& sums[0] == 0
            &&& steps[moved] == refined(ops, docs, left, right, rounds)
            &&& forall|k: int|
                0 <= k < moved ==> round_swaps(ops, docs, (#[trigger] steps[k]).0, steps[k].1) > 0 && steps[k + 1]
                    == round(ops, docs, steps[k].0, steps[k].1) && sums[k + 1] == sums[k] + round_swaps(
                    ops,
                    docs,
                    steps[k].0,
                    steps[k].1,
                )
            &&& moved == rounds || round_swaps(ops, docs, steps[moved].0, steps[moved].1) == 0
            &&& rounds_run(ops, docs, left, right, rounds) == if moved == rounds {
                rounds as int
            } else {
                moved + 1
            }
            &&& moves_throughout(ops, docs, left, right, rounds) == (moved == rounds)
            &&& swaps_made(ops, docs, left, right, rounds) == sums[moved]
        }),
    decreases rounds,
{
    if rounds == 0 || round_swaps(ops, docs, left, right) == 0 {
        (seq![(left, right)], seq![0nat])
    } else {
        let c = round_swaps(ops, docs, left, right);
        let (l, r) = round(ops, docs, left, right);
        let (later, later_sums) = a_refinement_is_rounds(ops, docs, l, r, (rounds - 1) as nat);
        let steps = seq![(left, right)] + later;
        let sums = seq![0nat] + Seq::new(later_sums.len(), |k: int| (c + later_sums[k]) as nat);
        let moved = steps.len() - 1;
        assert(steps[moved] == later[moved - 1]);
        assert forall|k: int| 0 <= k < moved implies round_swaps(ops, docs, (#[trigger] steps[k]).0, steps[k].1) > 0
            && steps[k + 1] == round(ops, docs, steps[k].0, steps[k].1) && sums[k + 1] == sums[k]
            + round_swaps(ops, docs, steps[k].0, steps[k].1) by {
            assert(steps[k + 1] == later[k]);
            assert(sums[k + 1] == c + later_sums[k]);
            if k > 0 {
                assert(steps[k] == later[k - 1]);
                assert(sums[k] == c + later_sums[k - 1]);
                assert(later[k - 1 + 1] == round(ops, docs, later[k - 1].0, later[k - 1].1));
            }
        }
        (steps, sums)
    }
}

/// What a split reports of itself is what its rounds did: of twenty at most, how many ran, how many
/// pairs they swapped, whether the last still moved documents, and how many terms the documents carry.
pub proof fn a_report_tells_of_the_rounds<F: Fn(CostOp) -> u32>(
    ops: F,
    docs: Seq<Seq<u32>>,
    left: Seq<u32>,
    right: Seq<u32>,
    how: Refinement,
) -> (r: (Seq<(Seq<u32>, Seq<u32>)>, Seq<nat>))
    requires
        is_refinement(ops, docs, left, right, how),
    ensures
        ({
            let (steps, sums) = r;
            let moved = steps.len() - 1;
            &&& 0 <= moved <= 20
            &&& sums.len() == steps.len()
            &&& steps[0] == (left, right)
            &&& sums[0] == 0
            &&& steps[moved] == refined(ops, docs, left, right, 20)
            &&& forall|k: int|
                0 <= k < moved ==> round_swaps(ops, docs, (#[trigger] steps[k]).0, steps[k].1) > 0 && steps[k + 1]
                    == round(ops, docs, steps[k].0, steps[k].1) && sums[k + 1] == sums[k] + round_swaps(
                    ops,
                    docs,
                    steps[k].0,
                    steps[k].1,
                )
            &&& moved == 20 || round_swaps(ops, docs, steps[moved].0, steps[moved].1) == 0
            &&& how.rounds == if moved == 20 {
                20
            } else {
                moved + 1
            }
            &&& how.hit_round_limit == (moved == 20)
            &&& how.swaps == sums[moved]
            &&& how.terms == carried_terms(docs, left + right).len()
        }),
{
    a_refinement_is_rounds(ops, docs, left, right, 20)
}

/// Of a split that stopped short of its last round no document on the left and document on the right
/// gain more than zero together, where sums of gains keep their order.
pub proof fn a_refined_split_has_no_pair_that_pays<F: Fn(CostOp) -> u32>(
    ops: F,
    docs: Seq<Seq<u32>>,
    left: Seq<u32>,
    right: Seq<u32>,
    how: Refinement,
    i: int,
    j: int,
)
    requires
        left.len() <= u32::MAX,
        right.len() <= u32::MAX,
        is_refinement(ops, docs, left, right, how),
        how.rounds < 20,
        ({
            let (l, r) = refined(ops, docs, left, right, 20);
            sums_keep_order(ops, ranking(gains(ops, docs, l, r)), ranking(gains(ops, docs, r, l)))
        }),
        0 <= i < left.len(),
        0 <= j < right.len(),
    ensures
        ({
            let (l, r) = refined(ops, docs, left, right, 20);
            not_positive(
                eval(
                    ops,
                    CostOp::Add(
                        sum_of_gains(ops, docs, l, r, docs[l[i] as int]),
                        sum_of_gains(ops, docs, r, l, docs[r[j] as int]),
                    ),
                ),
            )
        }),
{
    let (l, r) = refined(ops, docs, left, right, 20);
    let (steps, sums) = a_report_tells_of_the_rounds(ops, docs, left, right, how);
    refined_keeps_documents(ops, docs, left, right, 20);
    assert(steps[steps.len() - 1] == (l, r));
    where_nothing_moves_no_pair_pays(ops, docs, l, r, i, j);
}

/// A partition of more than 32 documents, less than 24 splits deep, is split, whatever its length:
/// its two halves, the left the shorter by one where they do not come out even, are refined in twenty
/// rounds at most, and the order is that of the one half and then that of the other, so the first
/// half of the places holds the documents of the refined left half. Any other is left as it is.
pub proof fn every_large_partition_is_split<F: Fn(CostOp) -> u32>(
    ops: F,
    docs: Seq<Seq<u32>>,
    order: Seq<u32>,
    depth: nat,
)
    requires
        order.len() <= u32::MAX,
    ensures
        order.len() <= 32 || depth >= 24 ==> split_order(ops, docs, order, depth) == order,
        order.len() > 32 && depth < 24 ==> {
            let mid = order.len() as int / 2;
            let (l, r) = refined(
                ops,
                docs,
                order.subrange(0, mid),
                order.subrange(mid, order.len() as int),
                20,
            );
            let split = split_order(ops, docs, order, depth);
            &&& split.len() == order.len()
            &&& split.subrange(0, mid) == split_order(ops, docs, l, depth + 1)
            &&& split.subrange(mid, order.len() as int) == split_order(ops, docs, r, depth + 1)
            &&& split.subrange(0, mid).to_multiset() == l.to_multiset()
            &&& split.subrange(mid, order.len() as int).to_multiset() == r.to_multiset()
        },
{
    if order.len() > 32 && depth < 24 {
        let mid = order.len() as int / 2;
        assert(order.subrange(0, mid) =~= order.take(mid));
        assert(order.subrange(mid, order.len() as int) =~= order.skip(mid));
        let (l, r) = refined(ops, docs, order.take(mid), order.skip(mid), 20);
        refined_keeps_documents(ops, docs, order.take(mid), order.skip(mid), 20);
        split_order_is_permutation(ops, docs, l, depth + 1);
        split_order_is_permutation(ops, docs, r, depth + 1);
        let split = split_order(ops, docs, order, depth);
        assert(split.subrange(0, mid) =~= split_order(ops, docs, l, depth + 1));
        assert(split.subrange(mid, order.len() as int) =~= split_order(ops, docs, r, depth + 1));
    }
}

/// Documents of which two share a term are stored as splitting their numbers in turn leaves them.
pub proof fn documents_that_share_a_term_are_split<F: Fn(CostOp) -> u32>(
    ops: F,
    docs: Seq<Seq<u32>>,
    numbers: Seq<u32>,
    d: int,
    i: int,
    e: int,
    j: int,
)
    requires
        docs.len() <= u32::MAX,
        numbers.len() == docs.len(),
        forall|k: int| 0 <= k < numbers.len() ==> #[trigger] numbers[k] == k,
        0 <= d < e < docs.len(),
        0 <= i < docs[d].len(),
        0 <= j < docs[e].len(),
        docs[d][i] == docs[e][j],
    ensures
        storage_order(ops, docs) == split_order(ops, docs, numbers, 0),
{
    assert(numbers =~= arrival_order(docs.len()));
}

/// Documents of which no two share a term, and documents that are too few to split, are stored as
/// they arrived.
pub proof fn documents_with_nothing_to_gain_stay<F: Fn(CostOp) -> u32>(
    ops: F,
    docs: Seq<Seq<u32>>,
    k: int,
)
    requires
        docs.len() <= u32::MAX,
        docs.len() <= 32 || forall|d: int, i: int, e: int, j: int|
            0 <= d < e < docs.len() && 0 <= i < docs[d].len() && 0 <= j < docs[e].len() ==> #[trigger] docs[d][i]
                != #[trigger] docs[e][j],
        0 <= k < docs.len(),
    ensures
        storage_order(ops, docs).len() == docs.len(),
        storage_order(ops, docs)[k] == k,
{
}

/// The reports on a partition begin with its own. One of fewer than 16384 documents is split on one
/// thread, and has no other report; after that of a larger one come those of its refined left half and
/// then those of its right.
pub proof fn reports_follow_the_splits<F: Fn(CostOp) -> u32>(
    ops: F,
    docs: Seq<Seq<u32>>,
    order: Seq<u32>,
    depth: nat,
    reports: Seq<SplitReport>,
) -> (n: int)
    requires
        are_reports(ops, docs, order, depth, reports),
    ensures
        order.len() < 16384 ==> reports.len() == 1 && reports[0].depth == depth && reports[0].docs == order.len()
            && reports[0].how is None,
        order.len() >= 16384 && depth >= 24 ==> reports.len() == 0,
        order.len() >= 16384 && depth < 24 ==> {
            let mid = order.len() as int / 2;
            let left = order.subrange(0, mid);
            let right = order.subrange(mid, order.len() as int);
            let (l, r) = refined(ops, docs, left, right, 20);
            &&& 1 <= n <= reports.len()
            &&& reports[0].depth == depth
            &&& reports[0].docs == order.len()
            &&& reports[0].how is Some
            &&& is_refinement(ops, docs, left, right, reports[0].how->0)
            &&& are_reports(ops, docs, l, depth + 1, reports.subrange(1, n))
            &&& are_reports(ops, docs, r, depth + 1, reports.subrange(n, reports.len() as int))
        },
{
    if order.len() >= 16384 && depth < 24 {
        let mid = order.len() as int / 2;
        assert(order.subrange(0, mid) =~= order.take(mid));
        assert(order.subrange(mid, order.len() as int) =~= order.skip(mid));
        let (l, r) = refined(ops, docs, order.take(mid), order.skip(mid), 20);
        let n = choose|n: int|
            1 <= n <= reports.len() && are_reports(ops, docs, l, depth + 1, #[trigger] reports.subrange(1, n))
                && are_reports(ops, docs, r, depth + 1, reports.skip(n));
        assert(reports.subrange(n, reports.len() as int) =~= reports.skip(n));
        n
    } else {
        0
    }
}

/// Whatever the degrees and sizes of two halves, a move gains what the one half saves by a carrier fewer,
/// where it has one, less what the other pays for a carrier more.
pub proof fn a_move_gains_by_degrees_and_sizes<F: Fn(CostOp) -> u32>(
    ops: F,
    here: u32,
    here_size: u32,
    there: u32,
    there_size: u32,
)
    requires
        there < u32::MAX,
    ensures
        ({
            let left_alone = eval(ops, CostOp::TermCost { deg: here, size: here_size });
            let one_fewer = eval(ops, CostOp::TermCost { deg: (here - 1) as u32, size: here_size });
            let as_it_is = if there == 0 {
                0u32
            } else {
                eval(ops, CostOp::TermCost { deg: there, size: there_size })
            };
            let one_more = eval(ops, CostOp::TermCost { deg: (there + 1) as u32, size: there_size });
            let saved = if here == 0 {
                eval(ops, CostOp::Sub(0, 0))
            } else if here == 1 {
                eval(ops, CostOp::Sub(left_alone, 0))
            } else {
                eval(ops, CostOp::Sub(left_alone, one_fewer))
            };
            gain_of_move(ops, here as int, here_size as int, there as int, there_size as int) == eval(
                ops,
                CostOp::Sub(eval(ops, CostOp::Add(saved, as_it_is)), one_more),
            )
        }),
{
}

/// An arithmetic is whatever can be asked for any operation and never answers it in two ways.
pub proof fn any_steady_answers_are_an_arithmetic<F: Fn(CostOp) -> u32>(ops: F)
    ensures
        is_arithmetic(ops) <==> (forall|op: CostOp| #[trigger] ops.requires((op,))) && forall|
            op: CostOp,
            a: u32,
            b: u32,
        | #[trigger] ops.ensures((op,), a) && #[trigger] ops.ensures((op,), b) ==> a == b,
{
}

/// An order can be counted exactly where it names documents that there are, and no term stands in them
/// more often than 32 bits hold.
pub proof fn orders_that_can_be_counted(docs: Seq<Seq<u32>>, order: Seq<u32>)
    ensures
        countable(docs, order) <==> (forall|i: int| 0 <= i < order.len() ==> #[trigger] order[i] < docs.len())
            && forall|t: u32| #[trigger] degree(docs, order, t) <= 0xffff_ffff,
{
}

/// An order names distinct documents exactly where each is one that there is, and none stands twice.
pub proof fn orders_of_distinct_documents(docs: Seq<Seq<u32>>, order: Seq<u32>)
    ensures
        distinct_docs(docs, order) <==> (forall|i: int|
            0 <= i < order.len() ==> #[trigger] order[i] < docs.len()) && forall|i: int, j: int|
            0 <= i < j < order.len() ==> #[trigger] order[i] != #[trigger] order[j],
{
}

/// No term is shared exactly where no list has a term that stands in another.
pub proof fn a_shared_term_stands_in_two_documents(docs: Seq<Seq<u32>>)
    ensures
        !no_shared_term(docs) <==> exists|d: int, i: int, e: int, j: int|
            0 <= d < e < docs.len() && 0 <= i < docs[d].len() && 0 <= j < docs[e].len() && #[trigger] docs[d][i]
                == #[trigger] docs[e][j],
{
}

/// A cost table has at each degree what the arithmetic answers for it, and nothing at none.
pub proof fn cost_tables_hold_costs<F: Fn(CostOp) -> u32>(ops: F, table: Seq<u32>, size: u32)
    requires
        table.len() <= 0x1_0000_0000,
    ensures
        is_cost_table(ops, table, size) <==> (table.len() > 0 ==> table[0] == 0u32) && forall|d: int|
            0 < d < table.len() ==> #[trigger] table[d] == eval(ops, CostOp::TermCost { deg: d as u32, size }),
{
}

/// A degree table has at each term how often it stands in the half's documents.
pub proof fn degree_tables_hold_degrees(table: Seq<u32>, docs: Seq<Seq<u32>>, half: Seq<u32>, t: u32)
    requires
        is_degree_table(table, docs, half),
        t < table.len(),
    ensures
        table[t as int] == half.map_values(|d: u32| docs[d as int]).flatten().filter(|x: u32| x == t).len(),
{
    degrees_are_counted(docs, half, t);
}

} // verus!
