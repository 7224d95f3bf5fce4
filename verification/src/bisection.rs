//! What recursive graph bisection computes: the order it gives a set of documents.
//!
//! Everything here is a function of the documents' term lists and of the arithmetic; the
//! executable splitting in [`crate::reorder`] is held to it.
use crate::arith::{CostOp, cost_of_term, minus, not_positive, plus, ranks_before, ZERO};
use crate::forward_index::no_shared_term;
use vstd::prelude::*;

verus! {

/// Documents below this per-partition size are left in the order they already have. Splitting
/// further costs more than the grouping is worth, and the gaps inside a group this small are
/// already short.
pub const MIN_PARTITION: usize = 32;

/// Move rounds per split. The first round captures nearly all of the available gain and later
/// ones taper sharply, so this trades a long tail of tiny improvements for a bounded cost per
/// level.
pub const MAX_ROUNDS: usize = 20;

/// Recursion depth cap, so a pathological corpus cannot drive the splitting arbitrarily deep. At
/// this depth a partition is `2^-24` of the corpus, far below [`MIN_PARTITION`] for any real one.
pub const MAX_DEPTH: u32 = 24;

/// How often `terms` holds `t`.
pub open spec fn occurrences(terms: Seq<u32>, t: u32) -> nat
    decreases terms.len(),
{
    if terms.len() == 0 {
        0
    } else {
        occurrences(terms.drop_last(), t) + if terms.last() == t {
            1nat
        } else {
            0
        }
    }
}

/// How often the documents of `half` hold `t`, all together.
pub open spec fn degree(docs: Seq<Seq<u32>>, half: Seq<u32>, t: u32) -> nat
    decreases half.len(),
{
    if half.len() == 0 {
        0
    } else {
        degree(docs, half.drop_last(), t) + occurrences(docs[half.last() as int], t)
    }
}

/// What the cost drops by when one document carrying a term moves from a half of `here_size`
/// documents, of which `here` carry the term, to one of `there_size`, of which `there` do.
pub open spec fn gain_of_move<F: Fn(CostOp) -> u32>(
    ops: F,
    here: int,
    here_size: int,
    there: int,
    there_size: int,
) -> u32 {
    let left_alone = cost_of_term(ops, here as u32, here_size as u32);
    let one_fewer = cost_of_term(
        ops,
        (if here == 0 {
            0
        } else {
            here - 1
        }) as u32,
        here_size as u32,
    );
    let as_it_is = cost_of_term(ops, there as u32, there_size as u32);
    let one_more = cost_of_term(ops, (there + 1) as u32, there_size as u32);
    minus(ops, plus(ops, minus(ops, left_alone, one_fewer), as_it_is), one_more)
}

/// What moving one document that carries `t` from `here` to `there` lowers `t`'s cost by.
pub open spec fn term_gain<F: Fn(CostOp) -> u32>(
    ops: F,
    docs: Seq<Seq<u32>>,
    here: Seq<u32>,
    there: Seq<u32>,
    t: u32,
) -> u32 {
    gain_of_move(
        ops,
        degree(docs, here, t) as int,
        here.len() as int,
        degree(docs, there, t) as int,
        there.len() as int,
    )
}

/// The gains of `terms`, added up from zero in the order they stand.
pub open spec fn sum_of_gains<F: Fn(CostOp) -> u32>(
    ops: F,
    docs: Seq<Seq<u32>>,
    here: Seq<u32>,
    there: Seq<u32>,
    terms: Seq<u32>,
) -> u32
    decreases terms.len(),
{
    if terms.len() == 0 {
        ZERO
    } else {
        plus(
            ops,
            sum_of_gains(ops, docs, here, there, terms.drop_last()),
            term_gain(ops, docs, here, there, terms.last()),
        )
    }
}

/// `(gain, position)` for every document of `here`: what its move to `there` would gain.
pub open spec fn gains<F: Fn(CostOp) -> u32>(
    ops: F,
    docs: Seq<Seq<u32>>,
    here: Seq<u32>,
    there: Seq<u32>,
) -> Seq<(u32, u32)> {
    Seq::new(
        here.len(),
        |i: int| (sum_of_gains(ops, docs, here, there, docs[here[i] as int]), i as u32),
    )
}

/// `pairs` from the highest gain to the lowest, ties by position.
pub open spec fn ranking(pairs: Seq<(u32, u32)>) -> Seq<(u32, u32)> {
    pairs.sort_by(|a: (u32, u32), b: (u32, u32)| ranks_before(a, b))
}

/// How many leading pairs of two rankings, from the `from`-th on, gain by swapping: as many as
/// stand before the first whose gains add up to zero or less.
pub open spec fn paying_pairs<F: Fn(CostOp) -> u32>(
    ops: F,
    left: Seq<(u32, u32)>,
    right: Seq<(u32, u32)>,
    from: int,
) -> nat
    decreases left.len() - from,
{
    if 0 <= from < left.len() && from < right.len() && !not_positive(
        plus(ops, left[from].0, right[from].0),
    ) {
        1 + paying_pairs(ops, left, right, from + 1)
    } else {
        0
    }
}

/// The two halves once the documents at the first `n` pairs of the rankings have changed places.
pub open spec fn swapped(
    left: Seq<u32>,
    right: Seq<u32>,
    left_ranking: Seq<(u32, u32)>,
    right_ranking: Seq<(u32, u32)>,
    n: nat,
) -> (Seq<u32>, Seq<u32>)
    decreases n,
{
    if n == 0 {
        (left, right)
    } else {
        let (l, r) = swapped(left, right, left_ranking, right_ranking, (n - 1) as nat);
        let li = left_ranking[n - 1].1 as int;
        let ri = right_ranking[n - 1].1 as int;
        (l.update(li, r[ri]), r.update(ri, l[li]))
    }
}

/// How many pairs one round of moves between `left` and `right` swaps.
pub open spec fn round_swaps<F: Fn(CostOp) -> u32>(
    ops: F,
    docs: Seq<Seq<u32>>,
    left: Seq<u32>,
    right: Seq<u32>,
) -> nat {
    paying_pairs(
        ops,
        ranking(gains(ops, docs, left, right)),
        ranking(gains(ops, docs, right, left)),
        0,
    )
}

/// The two halves after one round of moves.
pub open spec fn round<F: Fn(CostOp) -> u32>(
    ops: F,
    docs: Seq<Seq<u32>>,
    left: Seq<u32>,
    right: Seq<u32>,
) -> (Seq<u32>, Seq<u32>) {
    swapped(
        left,
        right,
        ranking(gains(ops, docs, left, right)),
        ranking(gains(ops, docs, right, left)),
        round_swaps(ops, docs, left, right),
    )
}

/// The two halves after `rounds` rounds of moves, or after the first that moves nothing.
pub open spec fn refined<F: Fn(CostOp) -> u32>(
    ops: F,
    docs: Seq<Seq<u32>>,
    left: Seq<u32>,
    right: Seq<u32>,
    rounds: nat,
) -> (Seq<u32>, Seq<u32>)
    decreases rounds,
{
    if rounds == 0 || round_swaps(ops, docs, left, right) == 0 {
        (left, right)
    } else {
        let (l, r) = round(ops, docs, left, right);
        refined(ops, docs, l, r, (rounds - 1) as nat)
    }
}

/// The order that splitting `order` at `depth` leaves: refine its two halves, then split each.
pub open spec fn split_order<F: Fn(CostOp) -> u32>(
    ops: F,
    docs: Seq<Seq<u32>>,
    order: Seq<u32>,
    depth: nat,
) -> Seq<u32>
    decreases MAX_DEPTH - depth,
{
    if order.len() <= MIN_PARTITION || depth >= MAX_DEPTH {
        order
    } else {
        let mid = (order.len() / 2) as int;
        let (left, right) = refined(
            ops,
            docs,
            order.take(mid),
            order.skip(mid),
            MAX_ROUNDS as nat,
        );
        split_order(ops, docs, left, depth + 1) + split_order(ops, docs, right, depth + 1)
    }
}

/// Arrival order: every document at its own number.
pub open spec fn arrival_order(n: nat) -> Seq<u32> {
    Seq::new(n, |i: int| i as u32)
}

/// The order that documents are stored in: arrival order when no two of them share a term, and
/// otherwise what splitting arrival order leaves.
pub open spec fn storage_order<F: Fn(CostOp) -> u32>(ops: F, docs: Seq<Seq<u32>>) -> Seq<u32> {
    if no_shared_term(docs) {
        arrival_order(docs.len())
    } else {
        split_order(ops, docs, arrival_order(docs.len()), 0)
    }
}

/// `order` names documents of the index, none twice.
pub open spec fn distinct_docs(docs: Seq<Seq<u32>>, order: Seq<u32>) -> bool {
    &&& forall|i: int| 0 <= i < order.len() ==> #[trigger] order[i] < docs.len()
    &&& order.no_duplicates()
}

/// `order` names documents of the index, and no term is carried, by all of them together, more
/// often than a table entry can hold.
pub open spec fn countable(docs: Seq<Seq<u32>>, order: Seq<u32>) -> bool {
    &&& forall|i: int| 0 <= i < order.len() ==> #[trigger] order[i] < docs.len()
    &&& forall|t: u32| #[trigger] degree(docs, order, t) <= u32::MAX
}

/// How many rounds a split runs, of `rounds` at most: the last is the first that moves nothing.
pub open spec fn rounds_run<F: Fn(CostOp) -> u32>(
    ops: F,
    docs: Seq<Seq<u32>>,
    left: Seq<u32>,
    right: Seq<u32>,
    rounds: nat,
) -> nat
    decreases rounds,
{
    if rounds == 0 {
        0
    } else if round_swaps(ops, docs, left, right) == 0 {
        1
    } else {
        let (l, r) = round(ops, docs, left, right);
        1 + rounds_run(ops, docs, l, r, (rounds - 1) as nat)
    }
}

/// How many pairs a split swaps, in `rounds` rounds at most.
pub open spec fn swaps_made<F: Fn(CostOp) -> u32>(
    ops: F,
    docs: Seq<Seq<u32>>,
    left: Seq<u32>,
    right: Seq<u32>,
    rounds: nat,
) -> nat
    decreases rounds,
{
    if rounds == 0 {
        0
    } else {
        let (l, r) = round(ops, docs, left, right);
        round_swaps(ops, docs, left, right) + if round_swaps(ops, docs, left, right) == 0 {
            0
        } else {
            swaps_made(ops, docs, l, r, (rounds - 1) as nat)
        }
    }
}

/// Every one of `rounds` rounds moves documents: the split has not settled.
pub open spec fn moves_throughout<F: Fn(CostOp) -> u32>(
    ops: F,
    docs: Seq<Seq<u32>>,
    left: Seq<u32>,
    right: Seq<u32>,
    rounds: nat,
) -> bool
    decreases rounds,
{
    rounds == 0 || {
        let (l, r) = round(ops, docs, left, right);
        round_swaps(ops, docs, left, right) > 0 && moves_throughout(ops, docs, l, r, (rounds - 1) as nat)
    }
}

/// The terms that the documents of `order` carry.
pub open spec fn carried_terms(docs: Seq<Seq<u32>>, order: Seq<u32>) -> Set<u32> {
    Set::new(|t: u32| degree(docs, order, t) > 0)
}

} // verus!
