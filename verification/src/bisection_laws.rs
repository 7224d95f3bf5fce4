//! What holds of every order the bisection gives.
use crate::arith::{
    cost_of_term, minus, not_positive, order_key, plus, ranks_before, ranks_before_is_total,
    CostOp, ZERO,
};
use crate::bisection::{
    arrival_order, degree, distinct_docs, gain_of_move, gains, moves_throughout, occurrences,
    paying_pairs, ranking, refined, round, round_swaps, split_order, storage_order, sum_of_gains,
    swapped, swaps_made, term_gain, MAX_DEPTH, MAX_ROUNDS, MIN_PARTITION,
};
use crate::degrees::{
    lemma_degree_concat, lemma_degree_isolate, lemma_degree_of_member, lemma_occurrences_of_member,
};
use crate::forward_index::no_shared_term;
use vstd::prelude::*;
use vstd::relations::sorted_by;

verus! {

/// A ranking holds the pairs it ranks, and no others, from the highest gain down.
pub proof fn lemma_ranking(pairs: Seq<(u32, u32)>)
    ensures
        ranking(pairs).len() == pairs.len(),
        ranking(pairs).to_multiset() == pairs.to_multiset(),
        sorted_by(ranking(pairs), |a: (u32, u32), b: (u32, u32)| ranks_before(a, b)),
        forall|j: int| 0 <= j < pairs.len() ==> pairs.contains(#[trigger] ranking(pairs)[j]),
{
    ranks_before_is_total();
    pairs.lemma_sort_by_ensures(|a: (u32, u32), b: (u32, u32)| ranks_before(a, b));
    vstd::seq_lib::to_multiset_len(pairs);
    vstd::seq_lib::to_multiset_len(ranking(pairs));
    assert forall|j: int| 0 <= j < pairs.len() implies pairs.contains(#[trigger] ranking(pairs)[j]) by {
        assert(ranking(pairs).contains(ranking(pairs)[j]));
    }
}

/// Every position in the ranking of a half is one of the half's.
pub proof fn lemma_ranked_positions<F: Fn(CostOp) -> u32>(
    ops: F,
    docs: Seq<Seq<u32>>,
    here: Seq<u32>,
    there: Seq<u32>,
)
    requires
        here.len() <= u32::MAX,
    ensures
        ranking(gains(ops, docs, here, there)).len() == here.len(),
        forall|j: int|
            0 <= j < here.len() ==> (#[trigger] ranking(gains(ops, docs, here, there))[j]).1 < here.len(),
{
    let pairs = gains(ops, docs, here, there);
    lemma_ranking(pairs);
    assert forall|j: int| 0 <= j < here.len() implies (#[trigger] ranking(pairs)[j]).1 < here.len() by {
        assert(pairs.contains(ranking(pairs)[j]));
        let i = choose|i: int| 0 <= i < pairs.len() && pairs[i] == ranking(pairs)[j];
        assert(pairs[i].1 == i as u32);
    }
}

/// No more pairs pay than there are.
pub proof fn lemma_paying_bounded<F: Fn(CostOp) -> u32>(
    ops: F,
    left: Seq<(u32, u32)>,
    right: Seq<(u32, u32)>,
    from: int,
)
    requires
        0 <= from <= left.len(),
        from <= right.len(),
    ensures
        from + paying_pairs(ops, left, right, from) <= left.len(),
        from + paying_pairs(ops, left, right, from) <= right.len(),
    decreases left.len() - from,
{
    if from < left.len() && from < right.len() {
        lemma_paying_bounded(ops, left, right, from + 1);
    }
}

/// Swapping one document of each half keeps the documents of both together.
proof fn lemma_swap_multiset(l: Seq<u32>, r: Seq<u32>, li: int, ri: int)
    requires
        0 <= li < l.len(),
        0 <= ri < r.len(),
    ensures
        (l.update(li, r[ri]) + r.update(ri, l[li])).to_multiset() == (l + r).to_multiset(),
{
    broadcast use vstd::multiset::group_multiset_axioms;

    let all = l + r;
    let at = l.len() + ri;
    let once = all.update(li, r[ri]);
    assert(l.update(li, r[ri]) + r.update(ri, l[li]) =~= once.update(at, l[li]));
    vstd::seq_lib::to_multiset_update(all, li, r[ri]);
    vstd::seq_lib::to_multiset_update(once, at, l[li]);
    assert(once[at] == r[ri]);
    assert(all.contains(all[li]));
    assert(once.contains(once[at]));
    vstd::seq_lib::to_multiset_contains(all, all[li]);
    vstd::seq_lib::to_multiset_contains(once, once[at]);
    assert(once.update(at, l[li]).to_multiset() =~= all.to_multiset());
}

/// Swapping pairs keeps the sizes of the halves and the documents of both together.
pub proof fn lemma_swapped(
    left: Seq<u32>,
    right: Seq<u32>,
    left_ranking: Seq<(u32, u32)>,
    right_ranking: Seq<(u32, u32)>,
    n: nat,
)
    requires
        n <= left_ranking.len(),
        n <= right_ranking.len(),
        forall|j: int| 0 <= j < n ==> (#[trigger] left_ranking[j]).1 < left.len(),
        forall|j: int| 0 <= j < n ==> (#[trigger] right_ranking[j]).1 < right.len(),
    ensures
        ({
            let (l, r) = swapped(left, right, left_ranking, right_ranking, n);
            &&& l.len() == left.len()
            &&& r.len() == right.len()
            &&& (l + r).to_multiset() == (left + right).to_multiset()
        }),
    decreases n,
{
    if n > 0 {
        lemma_swapped(left, right, left_ranking, right_ranking, (n - 1) as nat);
        let (l, r) = swapped(left, right, left_ranking, right_ranking, (n - 1) as nat);
        assert(left_ranking[n - 1].1 < left.len());
        assert(right_ranking[n - 1].1 < right.len());
        lemma_swap_multiset(l, r, left_ranking[n - 1].1 as int, right_ranking[n - 1].1 as int);
    }
}

/// One round of moves keeps the sizes of the halves, and the documents of both together.
pub proof fn round_keeps_documents<F: Fn(CostOp) -> u32>(
    ops: F,
    docs: Seq<Seq<u32>>,
    left: Seq<u32>,
    right: Seq<u32>,
)
    requires
        left.len() <= u32::MAX,
        right.len() <= u32::MAX,
    ensures
        ({
            let (l, r) = round(ops, docs, left, right);
            &&& l.len() == left.len()
            &&& r.len() == right.len()
            &&& (l + r).to_multiset() == (left + right).to_multiset()
        }),
{
    let lr = ranking(gains(ops, docs, left, right));
    let rr = ranking(gains(ops, docs, right, left));
    lemma_ranked_positions(ops, docs, left, right);
    lemma_ranked_positions(ops, docs, right, left);
    lemma_paying_bounded(ops, lr, rr, 0);
    lemma_swapped(left, right, lr, rr, round_swaps(ops, docs, left, right));
}

/// Refining a split keeps the sizes of the halves, and the documents of both together.
pub proof fn refined_keeps_documents<F: Fn(CostOp) -> u32>(
    ops: F,
    docs: Seq<Seq<u32>>,
    left: Seq<u32>,
    right: Seq<u32>,
    rounds: nat,
)
    requires
        left.len() <= u32::MAX,
        right.len() <= u32::MAX,
    ensures
        ({
            let (l, r) = refined(ops, docs, left, right, rounds);
            &&& l.len() == left.len()
            &&& r.len() == right.len()
            &&& (l + r).to_multiset() == (left + right).to_multiset()
        }),
    decreases rounds,
{
    if rounds > 0 && round_swaps(ops, docs, left, right) > 0 {
        round_keeps_documents(ops, docs, left, right);
        let (l, r) = round(ops, docs, left, right);
        refined_keeps_documents(ops, docs, l, r, (rounds - 1) as nat);
    }
}

/// A rearrangement of distinct documents is one of distinct documents.
pub proof fn lemma_rearranged_distinct(docs: Seq<Seq<u32>>, a: Seq<u32>, b: Seq<u32>)
    requires
        distinct_docs(docs, a),
        a.to_multiset() == b.to_multiset(),
    ensures
        distinct_docs(docs, b),
{
    a.lemma_multiset_has_no_duplicates();
    b.lemma_multiset_has_no_duplicates_conv();
    assert forall|i: int| 0 <= i < b.len() implies #[trigger] b[i] < docs.len() by {
        assert(b.contains(b[i]));
        vstd::seq_lib::to_multiset_contains(b, b[i]);
        vstd::seq_lib::to_multiset_contains(a, b[i]);
        let j = choose|j: int| 0 <= j < a.len() && a[j] == b[i];
        assert(a[j] < docs.len());
    }
}

/// Splitting gives back the documents it was given, each as often: the order is a permutation.
pub proof fn split_order_is_permutation<F: Fn(CostOp) -> u32>(
    ops: F,
    docs: Seq<Seq<u32>>,
    order: Seq<u32>,
    depth: nat,
)
    requires
        order.len() <= u32::MAX,
    ensures
        split_order(ops, docs, order, depth).to_multiset() == order.to_multiset(),
        split_order(ops, docs, order, depth).len() == order.len(),
    decreases MAX_DEPTH - depth,
{
    if order.len() > MIN_PARTITION && depth < MAX_DEPTH {
        let mid = (order.len() / 2) as int;
        let (l, r) = refined(ops, docs, order.take(mid), order.skip(mid), MAX_ROUNDS as nat);
        refined_keeps_documents(ops, docs, order.take(mid), order.skip(mid), MAX_ROUNDS as nat);
        assert(order.take(mid) + order.skip(mid) =~= order);
        split_order_is_permutation(ops, docs, l, depth + 1);
        split_order_is_permutation(ops, docs, r, depth + 1);
        vstd::seq_lib::lemma_multiset_commutative(l, r);
        vstd::seq_lib::lemma_multiset_commutative(
            split_order(ops, docs, l, depth + 1),
            split_order(ops, docs, r, depth + 1),
        );
    }
}

/// Arrival order names every document once.
pub proof fn arrival_order_is_distinct(docs: Seq<Seq<u32>>)
    requires
        docs.len() <= u32::MAX,
    ensures
        distinct_docs(docs, arrival_order(docs.len())),
{
}

/// A corpus too small to split keeps the order it has.
pub proof fn small_corpus_keeps_its_order<F: Fn(CostOp) -> u32>(
    ops: F,
    docs: Seq<Seq<u32>>,
    order: Seq<u32>,
    depth: nat,
)
    requires
        order.len() <= MIN_PARTITION,
    ensures
        split_order(ops, docs, order, depth) == order,
{
}

/// Among the gains of `left` and `right`, a sum that is not positive stays so when neither gain
/// grows.
pub open spec fn sums_keep_order<F: Fn(CostOp) -> u32>(
    ops: F,
    left: Seq<(u32, u32)>,
    right: Seq<(u32, u32)>,
) -> bool {
    forall|i: int, j: int, k: int, l: int|
        0 <= i < left.len() && 0 <= j < right.len() && 0 <= k < left.len() && 0 <= l < right.len() && order_key(
            left[k].0,
        ) <= order_key(left[i].0) && order_key(right[l].0) <= order_key(right[j].0) && not_positive(
            #[trigger] plus(ops, left[i].0, right[j].0),
        ) ==> not_positive(#[trigger] plus(ops, left[k].0, right[l].0))
}

/// Once a pair of two rankings does not pay, no later pair does, where sums of the gains ranked keep
/// their order.
pub proof fn no_later_pair_pays<F: Fn(CostOp) -> u32>(
    ops: F,
    left: Seq<(u32, u32)>,
    right: Seq<(u32, u32)>,
    i: int,
    j: int,
)
    requires
        sums_keep_order(ops, ranking(left), ranking(right)),
        0 <= i <= j < ranking(left).len(),
        j < ranking(right).len(),
        not_positive(plus(ops, ranking(left)[i].0, ranking(right)[i].0)),
    ensures
        not_positive(plus(ops, ranking(left)[j].0, ranking(right)[j].0)),
{
    lemma_ranking(left);
    lemma_ranking(right);
    let leq = |a: (u32, u32), b: (u32, u32)| ranks_before(a, b);
    if i < j {
        assert(leq(ranking(left)[i], ranking(left)[j]));
        assert(leq(ranking(right)[i], ranking(right)[j]));
    }
}

/// A round between halves whose documents all gain nothing by moving swaps nothing, where zero
/// and zero add up to nothing positive.
proof fn lemma_nothing_to_gain<F: Fn(CostOp) -> u32>(
    ops: F,
    docs: Seq<Seq<u32>>,
    left: Seq<u32>,
    right: Seq<u32>,
)
    requires
        not_positive(plus(ops, ZERO, ZERO)),
        forall|i: int|
            0 <= i < left.len() ==> sum_of_gains(ops, docs, left, right, docs[#[trigger] left[i] as int]) == ZERO,
        forall|i: int|
            0 <= i < right.len() ==> sum_of_gains(ops, docs, right, left, docs[#[trigger] right[i] as int]) == ZERO,
    ensures
        round_swaps(ops, docs, left, right) == 0,
{
    let lg = gains(ops, docs, left, right);
    let rg = gains(ops, docs, right, left);
    lemma_ranking(lg);
    lemma_ranking(rg);
    if left.len() > 0 && right.len() > 0 {
        assert(lg.contains(ranking(lg)[0]));
        assert(rg.contains(ranking(rg)[0]));
        let i = choose|i: int| 0 <= i < lg.len() && lg[i] == ranking(lg)[0];
        let j = choose|j: int| 0 <= j < rg.len() && rg[j] == ranking(rg)[0];
        assert(lg[i].0 == sum_of_gains(ops, docs, left, right, docs[left[i] as int]));
        assert(rg[j].0 == sum_of_gains(ops, docs, right, left, docs[right[j] as int]));
    }
}

/// Documents that carry no terms keep the order they have, where zero and zero add up to nothing
/// positive.
pub proof fn documents_without_terms_keep_their_order<F: Fn(CostOp) -> u32>(
    ops: F,
    docs: Seq<Seq<u32>>,
    order: Seq<u32>,
    depth: nat,
)
    requires
        not_positive(plus(ops, ZERO, ZERO)),
        forall|i: int| 0 <= i < order.len() ==> docs[#[trigger] order[i] as int].len() == 0,
    ensures
        split_order(ops, docs, order, depth) == order,
    decreases MAX_DEPTH - depth,
{
    if order.len() > MIN_PARTITION && depth < MAX_DEPTH {
        let mid = (order.len() / 2) as int;
        let left = order.take(mid);
        let right = order.skip(mid);
        assert forall|i: int| 0 <= i < left.len() implies docs[#[trigger] left[i] as int].len() == 0 by {
            assert(left[i] == order[i]);
        }
        assert forall|i: int| 0 <= i < right.len() implies docs[#[trigger] right[i] as int].len() == 0 by {
            assert(right[i] == order[mid + i]);
        }
        lemma_nothing_to_gain(ops, docs, left, right);
        documents_without_terms_keep_their_order(ops, docs, left, depth + 1);
        documents_without_terms_keep_their_order(ops, docs, right, depth + 1);
        assert(left + right =~= order);
    }
}

/// Every partition that splitting `n` documents at `depth` comes to is halved without remainder.
pub open spec fn halves_evenly(n: nat, depth: nat) -> bool
    decreases MAX_DEPTH - depth,
{
    n <= MIN_PARTITION || depth >= MAX_DEPTH || (n % 2 == 0 && halves_evenly(n / 2, depth + 1))
}

/// Taking a cost off and putting it back leaves zero, and zero and zero add up to zero.
pub open spec fn balances<F: Fn(CostOp) -> u32>(ops: F) -> bool {
    &&& plus(ops, ZERO, ZERO) == ZERO
    &&& forall|size: u32| #![trigger cost_of_term(ops, 1, size)] {
        let c = cost_of_term(ops, 1, size);
        minus(ops, plus(ops, minus(ops, c, ZERO), ZERO), c) == ZERO
    }
}

/// In halves of one size, a document whose terms stand nowhere else gains nothing by moving.
proof fn lemma_unshared_terms_gain_nothing<F: Fn(CostOp) -> u32>(
    ops: F,
    docs: Seq<Seq<u32>>,
    here: Seq<u32>,
    there: Seq<u32>,
    i: int,
    n: int,
)
    requires
        balances(ops),
        here.len() == there.len(),
        0 <= i < here.len(),
        0 <= n <= docs[here[i] as int].len(),
        forall|t: u32| #[trigger] degree(docs, here, t) + degree(docs, there, t) <= 1,
    ensures
        sum_of_gains(ops, docs, here, there, docs[here[i] as int].take(n)) == ZERO,
    decreases n,
{
    let terms = docs[here[i] as int];
    if n > 0 {
        let t = terms[n - 1];
        lemma_unshared_terms_gain_nothing(ops, docs, here, there, i, n - 1);
        assert(terms.take(n).drop_last() =~= terms.take(n - 1));
        lemma_occurrences_of_member(terms, n - 1);
        lemma_degree_of_member(docs, here, i, t);
        assert(degree(docs, here, t) + degree(docs, there, t) <= 1);
        assert(cost_of_term(ops, 1, here.len() as u32) == cost_of_term(ops, 1, there.len() as u32));
        assert(term_gain(ops, docs, here, there, t) == ZERO);
    }
}

/// Documents that share no term, nor carry one twice, keep the order they have, where every
/// partition is halved without remainder and the arithmetic takes off what it put on.
pub proof fn documents_sharing_no_term_keep_their_order<F: Fn(CostOp) -> u32>(
    ops: F,
    docs: Seq<Seq<u32>>,
    order: Seq<u32>,
    depth: nat,
)
    requires
        balances(ops),
        halves_evenly(order.len(), depth),
        forall|t: u32| #[trigger] degree(docs, order, t) <= 1,
    ensures
        split_order(ops, docs, order, depth) == order,
    decreases MAX_DEPTH - depth,
{
    if order.len() > MIN_PARTITION && depth < MAX_DEPTH {
        let mid = (order.len() / 2) as int;
        let left = order.take(mid);
        let right = order.skip(mid);
        assert(left + right =~= order);
        assert forall|t: u32| #[trigger] degree(docs, left, t) + degree(docs, right, t) <= 1 by {
            lemma_degree_concat(docs, left, right, t);
            assert(degree(docs, order, t) <= 1);
        }
        assert forall|t: u32| #[trigger] degree(docs, right, t) + degree(docs, left, t) <= 1 by {
            assert(degree(docs, left, t) + degree(docs, right, t) <= 1);
        }
        assert forall|i: int| 0 <= i < left.len() implies sum_of_gains(
            ops,
            docs,
            left,
            right,
            docs[#[trigger] left[i] as int],
        ) == ZERO by {
            let terms = docs[left[i] as int];
            lemma_unshared_terms_gain_nothing(ops, docs, left, right, i, terms.len() as int);
            assert(terms.take(terms.len() as int) =~= terms);
        }
        assert forall|i: int| 0 <= i < right.len() implies sum_of_gains(
            ops,
            docs,
            right,
            left,
            docs[#[trigger] right[i] as int],
        ) == ZERO by {
            let terms = docs[right[i] as int];
            lemma_unshared_terms_gain_nothing(ops, docs, right, left, i, terms.len() as int);
            assert(terms.take(terms.len() as int) =~= terms);
        }
        lemma_nothing_to_gain(ops, docs, left, right);
        assert(forall|t: u32| #[trigger] degree(docs, left, t) <= 1);
        assert(forall|t: u32| #[trigger] degree(docs, right, t) <= 1);
        documents_sharing_no_term_keep_their_order(ops, docs, left, depth + 1);
        documents_sharing_no_term_keep_their_order(ops, docs, right, depth + 1);
    }
}

/// A round that moves nothing leaves the halves as they are, and so does refining them, however
/// many rounds it may run.
pub proof fn a_settled_split_stays<F: Fn(CostOp) -> u32>(
    ops: F,
    docs: Seq<Seq<u32>>,
    left: Seq<u32>,
    right: Seq<u32>,
    rounds: nat,
)
    requires
        round_swaps(ops, docs, left, right) == 0,
    ensures
        round(ops, docs, left, right) == (left, right),
        refined(ops, docs, left, right, rounds) == (left, right),
        swaps_made(ops, docs, left, right, rounds) == 0,
{
}

/// A split that stopped before its last round, or moved nothing in it, has settled: refining what
/// it left changes nothing.
pub proof fn a_split_short_of_its_limit_has_settled<F: Fn(CostOp) -> u32>(
    ops: F,
    docs: Seq<Seq<u32>>,
    left: Seq<u32>,
    right: Seq<u32>,
    rounds: nat,
    more: nat,
)
    requires
        !moves_throughout(ops, docs, left, right, rounds),
    ensures
        ({
            let (l, r) = refined(ops, docs, left, right, rounds);
            &&& round_swaps(ops, docs, l, r) == 0
            &&& refined(ops, docs, l, r, more) == (l, r)
        }),
    decreases rounds,
{
    if rounds > 0 && round_swaps(ops, docs, left, right) > 0 {
        let (l, r) = round(ops, docs, left, right);
        a_split_short_of_its_limit_has_settled(ops, docs, l, r, (rounds - 1) as nat, more);
    }
}

/// `value` reads numbers such that none of the operations on the gain of this move is rounded.
pub open spec fn move_is_exact<F: Fn(CostOp) -> u32>(
    ops: F,
    value: spec_fn(u32) -> int,
    here: int,
    here_size: int,
    there: int,
    there_size: int,
) -> bool {
    let left_alone = cost_of_term(ops, here as u32, here_size as u32);
    let one_fewer = cost_of_term(ops, (here - 1) as u32, here_size as u32);
    let as_it_is = cost_of_term(ops, there as u32, there_size as u32);
    let one_more = cost_of_term(ops, (there + 1) as u32, there_size as u32);
    let saved = minus(ops, left_alone, one_fewer);
    let with_there = plus(ops, saved, as_it_is);
    &&& value(saved) == value(left_alone) - value(one_fewer)
    &&& value(with_there) == value(saved) + value(as_it_is)
    &&& value(minus(ops, with_there, one_more)) == value(with_there) - value(one_more)
}

/// What a move gains its return loses, where neither gain is rounded.
pub proof fn a_move_and_its_return_cancel<F: Fn(CostOp) -> u32>(
    ops: F,
    value: spec_fn(u32) -> int,
    here: int,
    here_size: int,
    there: int,
    there_size: int,
)
    requires
        1 <= here,
        0 <= there,
        move_is_exact(ops, value, here, here_size, there, there_size),
        move_is_exact(ops, value, there + 1, there_size, here - 1, here_size),
    ensures
        value(gain_of_move(ops, here, here_size, there, there_size)) + value(
            gain_of_move(ops, there + 1, there_size, here - 1, here_size),
        ) == 0,
{
}

/// `f` gives every two different terms of the documents different numbers.
pub open spec fn tells_apart(docs: Seq<Seq<u32>>, f: spec_fn(u32) -> u32) -> bool {
    forall|d: int, i: int, e: int, j: int|
        0 <= d < docs.len() && 0 <= i < docs[d].len() && 0 <= e < docs.len() && 0 <= j < docs[e].len() && f(
            #[trigger] docs[d][i],
        ) == f(#[trigger] docs[e][j]) ==> docs[d][i] == docs[e][j]
}

/// The documents with their terms under the numbers that `f` gives them.
pub open spec fn renumbered(docs: Seq<Seq<u32>>, f: spec_fn(u32) -> u32) -> Seq<Seq<u32>> {
    Seq::new(docs.len(), |d: int| Seq::new(docs[d].len(), |i: int| f(docs[d][i])))
}

/// `half` names documents of the index.
pub open spec fn names_docs(docs: Seq<Seq<u32>>, half: Seq<u32>) -> bool {
    forall|i: int| 0 <= i < half.len() ==> #[trigger] half[i] < docs.len()
}

/// `t` is a term of the documents.
spec fn is_term(docs: Seq<Seq<u32>>, t: u32) -> bool {
    exists|d: int, i: int| 0 <= d < docs.len() && 0 <= i < docs[d].len() && #[trigger] docs[d][i] == t
}

proof fn lemma_occurrences_renumbered(
    docs: Seq<Seq<u32>>,
    f: spec_fn(u32) -> u32,
    d: int,
    n: int,
    t: u32,
)
    requires
        tells_apart(docs, f),
        0 <= d < docs.len(),
        0 <= n <= docs[d].len(),
        is_term(docs, t),
    ensures
        occurrences(renumbered(docs, f)[d].take(n), f(t)) == occurrences(docs[d].take(n), t),
    decreases n,
{
    if n > 0 {
        lemma_occurrences_renumbered(docs, f, d, n - 1, t);
        assert(docs[d].take(n).drop_last() =~= docs[d].take(n - 1));
        assert(renumbered(docs, f)[d].take(n).drop_last() =~= renumbered(docs, f)[d].take(n - 1));
        let (e, j) = choose|e: int, j: int|
            0 <= e < docs.len() && 0 <= j < docs[e].len() && #[trigger] docs[e][j] == t;
        assert(docs[d].take(n).last() == docs[d][n - 1]);
        assert(renumbered(docs, f)[d].take(n).last() == f(docs[d][n - 1]));
        assert(docs[e][j] == t);
    }
}

proof fn lemma_degree_renumbered(docs: Seq<Seq<u32>>, f: spec_fn(u32) -> u32, half: Seq<u32>, t: u32)
    requires
        tells_apart(docs, f),
        names_docs(docs, half),
        is_term(docs, t),
    ensures
        degree(renumbered(docs, f), half, f(t)) == degree(docs, half, t),
    decreases half.len(),
{
    if half.len() > 0 {
        let d = half[half.len() - 1] as int;
        assert(half.last() == d);
        lemma_degree_renumbered(docs, f, half.drop_last(), t);
        lemma_occurrences_renumbered(docs, f, d, docs[d].len() as int, t);
        assert(docs[d].take(docs[d].len() as int) =~= docs[d]);
        assert(renumbered(docs, f)[d].take(docs[d].len() as int) =~= renumbered(docs, f)[d]);
    }
}

proof fn lemma_sum_renumbered<F: Fn(CostOp) -> u32>(
    ops: F,
    docs: Seq<Seq<u32>>,
    f: spec_fn(u32) -> u32,
    here: Seq<u32>,
    there: Seq<u32>,
    d: int,
    n: int,
)
    requires
        tells_apart(docs, f),
        names_docs(docs, here),
        names_docs(docs, there),
        0 <= d < docs.len(),
        0 <= n <= docs[d].len(),
    ensures
        sum_of_gains(ops, renumbered(docs, f), here, there, renumbered(docs, f)[d].take(n))
            == sum_of_gains(ops, docs, here, there, docs[d].take(n)),
    decreases n,
{
    if n > 0 {
        lemma_sum_renumbered(ops, docs, f, here, there, d, n - 1);
        assert(docs[d].take(n).drop_last() =~= docs[d].take(n - 1));
        assert(renumbered(docs, f)[d].take(n).drop_last() =~= renumbered(docs, f)[d].take(n - 1));
        let t = docs[d][n - 1];
        assert(is_term(docs, t));
        assert(docs[d].take(n).last() == t);
        assert(renumbered(docs, f)[d].take(n).last() == f(t));
        lemma_degree_renumbered(docs, f, here, t);
        lemma_degree_renumbered(docs, f, there, t);
    }
}

proof fn lemma_gains_renumbered<F: Fn(CostOp) -> u32>(
    ops: F,
    docs: Seq<Seq<u32>>,
    f: spec_fn(u32) -> u32,
    here: Seq<u32>,
    there: Seq<u32>,
)
    requires
        tells_apart(docs, f),
        names_docs(docs, here),
        names_docs(docs, there),
    ensures
        gains(ops, renumbered(docs, f), here, there) == gains(ops, docs, here, there),
{
    let a = gains(ops, renumbered(docs, f), here, there);
    let b = gains(ops, docs, here, there);
    assert forall|i: int| 0 <= i < here.len() implies a[i] == #[trigger] b[i] by {
        let d = here[i] as int;
        lemma_sum_renumbered(ops, docs, f, here, there, d, docs[d].len() as int);
        assert(docs[d].take(docs[d].len() as int) =~= docs[d]);
        assert(renumbered(docs, f)[d].take(docs[d].len() as int) =~= renumbered(docs, f)[d]);
    }
    assert(a =~= b);
}

/// Documents that were rearranged are documents of the index still.
proof fn lemma_names_rearranged(docs: Seq<Seq<u32>>, a: Seq<u32>, b: Seq<u32>)
    requires
        names_docs(docs, a),
        a.to_multiset() == b.to_multiset(),
    ensures
        names_docs(docs, b),
{
    assert forall|i: int| 0 <= i < b.len() implies #[trigger] b[i] < docs.len() by {
        assert(b.contains(b[i]));
        vstd::seq_lib::to_multiset_contains(b, b[i]);
        vstd::seq_lib::to_multiset_contains(a, b[i]);
        let j = choose|j: int| 0 <= j < a.len() && a[j] == b[i];
        assert(a[j] < docs.len());
    }
}

proof fn lemma_halves_named(docs: Seq<Seq<u32>>, both: Seq<u32>, l: Seq<u32>, r: Seq<u32>)
    requires
        names_docs(docs, both),
        (l + r).to_multiset() == both.to_multiset(),
    ensures
        names_docs(docs, l),
        names_docs(docs, r),
{
    lemma_names_rearranged(docs, both, l + r);
    assert forall|i: int| 0 <= i < l.len() implies #[trigger] l[i] < docs.len() by {
        assert((l + r)[i] == l[i]);
    }
    assert forall|i: int| 0 <= i < r.len() implies #[trigger] r[i] < docs.len() by {
        assert((l + r)[i + l.len()] == r[i]);
    }
}

proof fn lemma_refined_renumbered<F: Fn(CostOp) -> u32>(
    ops: F,
    docs: Seq<Seq<u32>>,
    f: spec_fn(u32) -> u32,
    left: Seq<u32>,
    right: Seq<u32>,
    rounds: nat,
)
    requires
        tells_apart(docs, f),
        names_docs(docs, left),
        names_docs(docs, right),
        left.len() <= u32::MAX,
        right.len() <= u32::MAX,
    ensures
        refined(ops, renumbered(docs, f), left, right, rounds) == refined(ops, docs, left, right, rounds),
    decreases rounds,
{
    lemma_gains_renumbered(ops, docs, f, left, right);
    lemma_gains_renumbered(ops, docs, f, right, left);
    if rounds > 0 && round_swaps(ops, docs, left, right) > 0 {
        let (l, r) = round(ops, docs, left, right);
        round_keeps_documents(ops, docs, left, right);
        assert(names_docs(docs, left + right));
        lemma_halves_named(docs, left + right, l, r);
        lemma_refined_renumbered(ops, docs, f, l, r, (rounds - 1) as nat);
    }
}

proof fn lemma_split_renumbered<F: Fn(CostOp) -> u32>(
    ops: F,
    docs: Seq<Seq<u32>>,
    f: spec_fn(u32) -> u32,
    order: Seq<u32>,
    depth: nat,
)
    requires
        tells_apart(docs, f),
        names_docs(docs, order),
        order.len() <= u32::MAX,
    ensures
        split_order(ops, renumbered(docs, f), order, depth) == split_order(ops, docs, order, depth),
    decreases MAX_DEPTH - depth,
{
    if order.len() > MIN_PARTITION && depth < MAX_DEPTH {
        let mid = (order.len() / 2) as int;
        let (l, r) = refined(ops, docs, order.take(mid), order.skip(mid), MAX_ROUNDS as nat);
        assert(order.take(mid) + order.skip(mid) =~= order);
        lemma_refined_renumbered(ops, docs, f, order.take(mid), order.skip(mid), MAX_ROUNDS as nat);
        refined_keeps_documents(ops, docs, order.take(mid), order.skip(mid), MAX_ROUNDS as nat);
        lemma_halves_named(docs, order, l, r);
        lemma_split_renumbered(ops, docs, f, l, depth + 1);
        lemma_split_renumbered(ops, docs, f, r, depth + 1);
    }
}

/// How terms are numbered does not show in the order: other numbers for the same terms give the
/// documents the same places.
pub proof fn numbers_of_terms_do_not_matter<F: Fn(CostOp) -> u32>(
    ops: F,
    docs: Seq<Seq<u32>>,
    f: spec_fn(u32) -> u32,
)
    requires
        tells_apart(docs, f),
        docs.len() <= u32::MAX,
    ensures
        storage_order(ops, renumbered(docs, f)) == storage_order(ops, docs),
{
    let other = renumbered(docs, f);
    assert(no_shared_term(other) == no_shared_term(docs)) by {
        if no_shared_term(docs) {
            assert forall|d: int, i: int, e: int, j: int|
                0 <= d < e < other.len() && 0 <= i < other[d].len() && 0 <= j < other[e].len()
                implies #[trigger] other[d][i] != #[trigger] other[e][j] by {
                assert(docs[d][i] != docs[e][j]);
            }
        }
        if no_shared_term(other) {
            assert forall|d: int, i: int, e: int, j: int|
                0 <= d < e < docs.len() && 0 <= i < docs[d].len() && 0 <= j < docs[e].len()
                implies #[trigger] docs[d][i] != #[trigger] docs[e][j] by {
                assert(other[d][i] != other[e][j]);
            }
        }
    }
    lemma_split_renumbered(ops, docs, f, arrival_order(docs.len()), 0);
}

/// What the terms of `terms` cost in both halves, read by `value`, all together.
pub open spec fn cost_of_terms<F: Fn(CostOp) -> u32>(
    ops: F,
    value: spec_fn(u32) -> int,
    docs: Seq<Seq<u32>>,
    terms: Seq<u32>,
    here: Seq<u32>,
    here_size: nat,
    there: Seq<u32>,
    there_size: nat,
) -> int
    decreases terms.len(),
{
    if terms.len() == 0 {
        0
    } else {
        cost_of_terms(ops, value, docs, terms.drop_last(), here, here_size, there, there_size)
            + cost_of_one(ops, value, docs, terms.last(), here, here_size, there, there_size)
    }
}

/// What the term `t` costs in both halves, read by `value`.
pub open spec fn cost_of_one<F: Fn(CostOp) -> u32>(
    ops: F,
    value: spec_fn(u32) -> int,
    docs: Seq<Seq<u32>>,
    t: u32,
    here: Seq<u32>,
    here_size: nat,
    there: Seq<u32>,
    there_size: nat,
) -> int {
    value(cost_of_term(ops, degree(docs, here, t) as u32, here_size as u32)) + value(
        cost_of_term(ops, degree(docs, there, t) as u32, there_size as u32),
    )
}

/// `value` reads numbers such that none of the operations on a document's gain is rounded, for a
/// document that carries `terms`.
pub open spec fn gain_is_exact<F: Fn(CostOp) -> u32>(
    ops: F,
    value: spec_fn(u32) -> int,
    docs: Seq<Seq<u32>>,
    here: Seq<u32>,
    there: Seq<u32>,
    terms: Seq<u32>,
) -> bool
    decreases terms.len(),
{
    if terms.len() == 0 {
        value(ZERO) == 0
    } else {
        let so_far = sum_of_gains(ops, docs, here, there, terms.drop_last());
        let gain = term_gain(ops, docs, here, there, terms.last());
        &&& gain_is_exact(ops, value, docs, here, there, terms.drop_last())
        &&& value(plus(ops, so_far, gain)) == value(so_far) + value(gain)
        &&& move_is_exact(
            ops,
            value,
            degree(docs, here, terms.last()) as int,
            here.len() as int,
            degree(docs, there, terms.last()) as int,
            there.len() as int,
        )
    }
}

/// `f` of each of `terms`, added up.
spec fn total(f: spec_fn(u32) -> int, terms: Seq<u32>) -> int
    decreases terms.len(),
{
    if terms.len() == 0 {
        0
    } else {
        total(f, terms.drop_last()) + f(terms.last())
    }
}

/// Taking one term out takes its share out of the sum.
proof fn lemma_total_without(f: spec_fn(u32) -> int, terms: Seq<u32>, k: int)
    requires
        0 <= k < terms.len(),
    ensures
        total(f, terms) == total(f, terms.remove(k)) + f(terms[k]),
    decreases terms.len(),
{
    if k == terms.len() - 1 {
        assert(terms.remove(k) =~= terms.drop_last());
    } else {
        lemma_total_without(f, terms.drop_last(), k);
        assert(terms.remove(k).drop_last() =~= terms.drop_last().remove(k));
        assert(terms.remove(k).last() == terms.last());
    }
}

/// Terms that add nothing may be left out of a sum.
proof fn lemma_total_of_part(f: spec_fn(u32) -> int, all: Seq<u32>, part: Seq<u32>)
    requires
        all.no_duplicates(),
        part.no_duplicates(),
        forall|k: int| 0 <= k < part.len() ==> all.contains(#[trigger] part[k]),
        forall|k: int| 0 <= k < all.len() && !part.contains(#[trigger] all[k]) ==> f(all[k]) == 0,
    ensures
        total(f, all) == total(f, part),
    decreases all.len(),
{
    if all.len() == 0 {
        if part.len() > 0 {
            assert(all.contains(part[0]));
        }
    } else {
        let n = all.len() - 1;
        let fewer = all.drop_last();
        let t = all[n];
        if part.contains(t) {
            let i = choose|i: int| 0 <= i < part.len() && part[i] == t;
            let rest = part.remove(i);
            lemma_total_without(f, part, i);
            assert forall|a: int, b: int| 0 <= a < rest.len() && 0 <= b < rest.len() && a != b implies rest[a]
                != rest[b] by {
                let pa = if a < i { a } else { a + 1 };
                let pb = if b < i { b } else { b + 1 };
                assert(rest[a] == part[pa] && rest[b] == part[pb]);
            }
            assert forall|k: int| 0 <= k < rest.len() implies fewer.contains(#[trigger] rest[k]) by {
                let pk = if k < i { k } else { k + 1 };
                assert(rest[k] == part[pk]);
                assert(all.contains(part[pk]));
                let m = choose|m: int| 0 <= m < all.len() && all[m] == part[pk];
                assert(m != n);
                assert(fewer[m] == rest[k]);
            }
            assert forall|k: int| 0 <= k < fewer.len() && !rest.contains(#[trigger] fewer[k]) implies f(fewer[k])
                == 0 by {
                assert(fewer[k] == all[k]);
                if part.contains(all[k]) {
                    let m = choose|m: int| 0 <= m < part.len() && part[m] == all[k];
                    assert(m != i);
                    let at = if m < i { m } else { m - 1 };
                    assert(rest[at] == all[k]);
                }
            }
            lemma_total_of_part(f, fewer, rest);
        } else {
            assert forall|k: int| 0 <= k < part.len() implies fewer.contains(#[trigger] part[k]) by {
                assert(all.contains(part[k]));
                let m = choose|m: int| 0 <= m < all.len() && all[m] == part[k];
                assert(m != n);
                assert(fewer[m] == part[k]);
            }
            assert forall|k: int| 0 <= k < fewer.len() && !part.contains(#[trigger] fewer[k]) implies f(fewer[k])
                == 0 by {
                assert(fewer[k] == all[k]);
            }
            lemma_total_of_part(f, fewer, part);
        }
    }
}

/// A term that a document carries once occurs in it once, and no other does.
proof fn lemma_occurs_once(terms: Seq<u32>, t: u32)
    requires
        terms.no_duplicates(),
    ensures
        occurrences(terms, t) == if terms.contains(t) {
            1nat
        } else {
            0
        },
    decreases terms.len(),
{
    if terms.len() > 0 {
        let fewer = terms.drop_last();
        lemma_occurs_once(fewer, t);
        let n = terms.len() - 1;
        if terms.contains(t) {
            let k = choose|k: int| 0 <= k < terms.len() && terms[k] == t;
            if k < n {
                assert(fewer[k] == t);
                assert(fewer.contains(t));
                assert(terms[n] != t);
            } else if fewer.contains(t) {
                let j = choose|j: int| 0 <= j < fewer.len() && fewer[j] == t;
                assert(terms[j] == terms[n]);
            }
        } else if fewer.contains(t) {
            let j = choose|j: int| 0 <= j < fewer.len() && fewer[j] == t;
            assert(terms[j] == t);
        }
    }
}

/// An exact gain is what its terms gain, all together.
proof fn lemma_exact_sum<F: Fn(CostOp) -> u32>(
    ops: F,
    value: spec_fn(u32) -> int,
    docs: Seq<Seq<u32>>,
    here: Seq<u32>,
    there: Seq<u32>,
    terms: Seq<u32>,
    f: spec_fn(u32) -> int,
)
    requires
        gain_is_exact(ops, value, docs, here, there, terms),
        forall|k: int|
            0 <= k < terms.len() ==> f(#[trigger] terms[k]) == value(term_gain(ops, docs, here, there, terms[k])),
    ensures
        value(sum_of_gains(ops, docs, here, there, terms)) == total(f, terms),
    decreases terms.len(),
{
    if terms.len() > 0 {
        let fewer = terms.drop_last();
        assert forall|k: int| 0 <= k < fewer.len() implies f(#[trigger] fewer[k]) == value(
            term_gain(ops, docs, here, there, fewer[k]),
        ) by {
            assert(fewer[k] == terms[k]);
        }
        lemma_exact_sum(ops, value, docs, here, there, fewer, f);
        assert(terms[terms.len() - 1] == terms.last());
    }
}

/// An exact gain is exact in each of its terms.
proof fn lemma_exact_term<F: Fn(CostOp) -> u32>(
    ops: F,
    value: spec_fn(u32) -> int,
    docs: Seq<Seq<u32>>,
    here: Seq<u32>,
    there: Seq<u32>,
    terms: Seq<u32>,
    k: int,
)
    requires
        gain_is_exact(ops, value, docs, here, there, terms),
        0 <= k < terms.len(),
    ensures
        move_is_exact(
            ops,
            value,
            degree(docs, here, terms[k]) as int,
            here.len() as int,
            degree(docs, there, terms[k]) as int,
            there.len() as int,
        ),
    decreases terms.len(),
{
    if k < terms.len() - 1 {
        lemma_exact_term(ops, value, docs, here, there, terms.drop_last(), k);
    }
}

/// Costs term by term, before less after.
proof fn lemma_cost_drop<F: Fn(CostOp) -> u32>(
    ops: F,
    value: spec_fn(u32) -> int,
    docs: Seq<Seq<u32>>,
    terms: Seq<u32>,
    here: Seq<u32>,
    there: Seq<u32>,
    here_after: Seq<u32>,
    there_after: Seq<u32>,
    here_size: nat,
    there_size: nat,
    f: spec_fn(u32) -> int,
)
    requires
        forall|t: u32| #[trigger]
            f(t) == cost_of_one(ops, value, docs, t, here, here_size, there, there_size) - cost_of_one(
                ops,
                value,
                docs,
                t,
                here_after,
                here_size,
                there_after,
                there_size,
            ),
    ensures
        cost_of_terms(ops, value, docs, terms, here, here_size, there, there_size) - cost_of_terms(
            ops,
            value,
            docs,
            terms,
            here_after,
            here_size,
            there_after,
            there_size,
        ) == total(f, terms),
    decreases terms.len(),
{
    if terms.len() > 0 {
        lemma_cost_drop(
            ops,
            value,
            docs,
            terms.drop_last(),
            here,
            there,
            here_after,
            there_after,
            here_size,
            there_size,
            f,
        );
        assert(f(terms.last()) == f(terms.last()));
    }
}

/// A document's gain is what the cost drops by when it moves to the other half, for a document that
/// holds no term twice and where the gain is not rounded. The cost is that of any terms that hold
/// the document's, and the halves are costed at the sizes they have before: documents move in
/// pairs, so the halves keep them.
pub proof fn a_gain_is_what_the_cost_drops_by<F: Fn(CostOp) -> u32>(
    ops: F,
    value: spec_fn(u32) -> int,
    docs: Seq<Seq<u32>>,
    vocabulary: Seq<u32>,
    here: Seq<u32>,
    there: Seq<u32>,
    i: int,
)
    requires
        0 <= i < here.len(),
        docs[here[i] as int].no_duplicates(),
        vocabulary.no_duplicates(),
        forall|k: int|
            0 <= k < docs[here[i] as int].len() ==> vocabulary.contains(#[trigger] docs[here[i] as int][k]),
        gain_is_exact(ops, value, docs, here, there, docs[here[i] as int]),
    ensures
        cost_of_terms(ops, value, docs, vocabulary, here, here.len(), there, there.len()) - cost_of_terms(
            ops,
            value,
            docs,
            vocabulary,
            here.remove(i),
            here.len(),
            there.push(here[i]),
            there.len(),
        ) == value(sum_of_gains(ops, docs, here, there, docs[here[i] as int])),
{
    let doc = docs[here[i] as int];
    let here_after = here.remove(i);
    let there_after = there.push(here[i]);
    let drop = |t: u32|
        cost_of_one(ops, value, docs, t, here, here.len(), there, there.len()) - cost_of_one(
            ops,
            value,
            docs,
            t,
            here_after,
            here.len(),
            there_after,
            there.len(),
        );
    lemma_cost_drop(
        ops,
        value,
        docs,
        vocabulary,
        here,
        there,
        here_after,
        there_after,
        here.len(),
        there.len(),
        drop,
    );
    assert(there_after.drop_last() =~= there);
    assert forall|k: int| 0 <= k < vocabulary.len() && !doc.contains(#[trigger] vocabulary[k]) implies drop(
        vocabulary[k],
    ) == 0 by {
        lemma_occurs_once(doc, vocabulary[k]);
        lemma_degree_isolate(docs, here, i, vocabulary[k]);
    }
    assert forall|k: int| 0 <= k < doc.len() implies drop(#[trigger] doc[k]) == value(
        term_gain(ops, docs, here, there, doc[k]),
    ) by {
        let t = doc[k];
        assert(doc.contains(t));
        lemma_occurs_once(doc, t);
        lemma_degree_isolate(docs, here, i, t);
        lemma_exact_term(ops, value, docs, here, there, doc, k);
    }
    lemma_total_of_part(drop, vocabulary, doc);
    lemma_exact_sum(ops, value, docs, here, there, doc, drop);
}

} // verus!
