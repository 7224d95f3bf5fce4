//! Choosing the order a superfile stores its documents in.
//!
//! A posting list costs less to store and less to walk when the documents carrying a term sit
//! close together: the gaps between their ids are smaller, and a block covers a narrower span so
//! more of the list can be skipped without decoding. Arrival order gives no such grouping, and
//! nothing about arrival order is worth preserving inside the full-text index, because the index
//! reaches its rows through the doc-id map rather than by position.
//!
//! So compaction picks an order. This module computes it by recursive graph bisection: split the
//! documents in two, repeatedly move documents across the split while doing so lowers the cost of
//! the terms they carry, then recurse into each half. Reading the leaves left to right gives an
//! order in which documents sharing terms are neighbours.
//!
//! The cost being minimised is the standard one for this problem, a stand-in for the bits a
//! term's postings take once split across the two halves:
//!
//! ```text
//! cost(half) = sum over terms of  deg * log2(size / (deg + 1))
//! ```
//!
//! where `deg` is how many documents in that half carry the term and `size` is the half's
//! document count. Moving a document changes only the terms it carries, so a move's effect is
//! summed over those terms alone, which is what makes the iteration affordable.
//!
//! Nothing here reads or writes a blob. It takes term sets and returns an order.
use crate::arith::{
    at_most_zero, cost_of_term, is_arithmetic, plus, ranks_before, ranks_before_is_total,
    term_cost, CostOp, ZERO,
};
use crate::bisection::{
    arrival_order, carried_terms, countable, degree, distinct_docs, gain_of_move, gains,
    moves_throughout, occurrences, paying_pairs, ranking, refined, round, rounds_run, split_order,
    storage_order, sum_of_gains, swapped, swaps_made, term_gain, MAX_DEPTH, MAX_ROUNDS,
    MIN_PARTITION,
};
use crate::bisection_laws::{
    arrival_order_is_distinct, lemma_paying_bounded, lemma_ranked_positions,
    lemma_rearranged_distinct, lemma_swapped, refined_keeps_documents, split_order_is_permutation,
};
use crate::degrees::{
    lemma_countable_rearranged, lemma_degree_bounded, lemma_degree_concat, lemma_degree_of_member,
    lemma_degree_rearranged, lemma_degree_update, lemma_degree_witness,
    lemma_occurrences_of_member, lemma_occurrences_prefix,
};
use crate::forward_index::{no_shared_term, ForwardIndex};
use crate::parallel::{par_map_indexed, par_sort_pairs, sort_pairs};
use vstd::prelude::*;
use vstd::rwlock::{RwLock, RwLockPredicate};

verus! {

/// Degrees below this read their cost from a table filled once per split instead of asking the
/// arithmetic for [`term_cost`]. Nearly every degree is below it, and at 256 KiB per side the
/// tables stay in cache. Larger degrees compute the cost directly, so the values are the same.
pub const COST_TABLE_LEN: usize = 65536;

/// Partitions below this size are split on one thread, with one scratch state for their whole
/// subtree. Above it the two halves recurse in parallel, and a split's gains and sorts run in
/// parallel too. Every partition is split the same way on any thread, so the order does not
/// depend on how the work is spread.
pub const PARALLEL_MIN_PARTITION: usize = 16384;

/// Every entry of `table` is the cost of a term carried by that many of `size` documents.
pub open spec fn is_cost_table<F: Fn(CostOp) -> u32>(ops: F, table: Seq<u32>, size: u32) -> bool {
    forall|d: int| 0 <= d < table.len() ==> #[trigger] table[d] == cost_of_term(ops, d as u32, size)
}

/// Fill `table` with `term_cost(d, size)` for every degree a half of `size` documents can reach,
/// up to [`COST_TABLE_LEN`].
pub fn fill_cost_table<F: Fn(CostOp) -> u32>(ops: &F, table: &mut Vec<u32>, size: u32)
    requires
        is_arithmetic(*ops),
    ensures
        is_cost_table(*ops, final(table)@, size),
        final(table)@.len() == if size + 2 <= COST_TABLE_LEN {
            size + 2
        } else {
            COST_TABLE_LEN as int
        },
        final(table)@.len() == size + 2 || final(table)@.len() == 65536 && size + 2 > 65536,
{
    // A degree reaches at most `size + 1`: the term's documents on this side plus the one moving
    // in.
    let len: u32 = if size < 65534 {
        size + 2
    } else {
        65536
    };
    table.clear();
    for d in 0..len
        invariant
            len <= 65536,
            is_arithmetic(*ops),
            table@.len() == d,
            is_cost_table(*ops, table@, size),
    {
        table.push(term_cost(ops, d, size));
    }
}

/// One half of a split, as a term's move gain sees it.
pub struct Side<'a> {
    /// Documents in this half carrying the term.
    pub deg: u32,
    /// Documents in this half.
    pub size: u32,
    /// This half's cost table.
    pub costs: &'a [u32],
}

impl Side<'_> {
    /// What a term carried by `deg` of this half's documents contributes to its cost.
    pub fn cost<F: Fn(CostOp) -> u32>(&self, ops: &F, deg: u32) -> (c: u32)
        requires
            is_arithmetic(*ops),
            is_cost_table(*ops, self.costs@, self.size),
        ensures
            c == cost_of_term(*ops, deg, self.size),
    {
        match self.costs.get(deg as usize) {
            Some(c) => *c,
            None => term_cost(ops, deg, self.size),
        }
    }
}

/// What the cost drops by when one document carrying a term moves from `here` to `there`.
pub fn move_gain<F: Fn(CostOp) -> u32>(ops: &F, here: &Side, there: &Side) -> (gain: u32)
    requires
        is_arithmetic(*ops),
        is_cost_table(*ops, here.costs@, here.size),
        is_cost_table(*ops, there.costs@, there.size),
        there.deg < u32::MAX,
    ensures
        gain == gain_of_move(
            *ops,
            here.deg as int,
            here.size as int,
            there.deg as int,
            there.size as int,
        ),
{
    let lost: u32 = ops(
        CostOp::Sub(here.cost(ops, here.deg), here.cost(ops, here.deg.saturating_sub(1))),
    );
    let kept: u32 = ops(CostOp::Add(lost, there.cost(ops, there.deg)));
    ops(CostOp::Sub(kept, there.cost(ops, there.deg + 1)))
}

/// The entries of `table` at `terms`, added up from zero in the order they stand.
pub open spec fn table_sum<F: Fn(CostOp) -> u32>(
    ops: F,
    table: Seq<u32>,
    terms: Seq<u32>,
) -> u32
    decreases terms.len(),
{
    if terms.len() == 0 {
        ZERO
    } else {
        plus(ops, table_sum(ops, table, terms.drop_last()), table[terms.last() as int])
    }
}

/// A document's gain: the sum of its terms' move gains.
fn doc_gain<F: Fn(CostOp) -> u32>(
    ops: &F,
    fwd: &ForwardIndex,
    d: u32,
    move_gain: &[u32],
) -> (gain: u32)
    requires
        is_arithmetic(*ops),
        fwd.wf(),
        d < fwd@.len(),
        fwd.term_bound() <= move_gain@.len(),
    ensures
        gain == table_sum(*ops, move_gain@, fwd@[d as int]),
{
    let terms = fwd.doc(d);
    let mut gain: u32 = ZERO;
    for k in 0..terms.len()
        invariant
            is_arithmetic(*ops),
            fwd.wf(),
            d < fwd@.len(),
            fwd.term_bound() <= move_gain@.len(),
            terms@ == fwd@[d as int],
            gain == table_sum(*ops, move_gain@, terms@.take(k as int)),
    {
        proof {
            fwd.lemma_bounds();
            assert(fwd@[d as int][k as int] < fwd.term_bound());
            assert(terms@.take(k + 1).drop_last() =~= terms@.take(k as int));
        }
        let t: usize = terms[k] as usize;
        gain = ops(CostOp::Add(gain, move_gain[t]));
    }
    assert(terms@.take(terms@.len() as int) =~= terms@);
    gain
}

/// `(gain, position within the half)` for every document in `half`: the sum of its terms' move
/// gains for that side.
pub fn rank_by_gain<F: Fn(CostOp) -> u32 + Sync>(
    ops: &F,
    fwd: &ForwardIndex,
    half: &[u32],
    move_gain: &[u32],
    parallel: bool,
) -> (ranked: Vec<(u32, u32)>)
    requires
        is_arithmetic(*ops),
        fwd.wf(),
        half@.len() <= u32::MAX,
        forall|i: int| 0 <= i < half@.len() ==> #[trigger] half@[i] < fwd@.len(),
        fwd.term_bound() <= move_gain@.len(),
    ensures
        ranked@ == Seq::new(
            half@.len(),
            |i: int| (table_sum(*ops, move_gain@, fwd@[half@[i] as int]), i as u32),
        ),
{
    if parallel {
        let gain_of = |i: usize, d: &u32| -> (pair: (u32, u32))
            requires
                *d < fwd@.len(),
                i < half@.len(),
            ensures
                pair == (table_sum(*ops, move_gain@, fwd@[*d as int]), i as u32),
            {
                (doc_gain(ops, fwd, *d, move_gain), i as u32)
            };
        par_map_indexed(half, gain_of)
    } else {
        let mut ranked: Vec<(u32, u32)> = Vec::new();
        for i in 0..half.len()
            invariant
                is_arithmetic(*ops),
                fwd.wf(),
                half@.len() <= u32::MAX,
                forall|i: int| 0 <= i < half@.len() ==> #[trigger] half@[i] < fwd@.len(),
                fwd.term_bound() <= move_gain@.len(),
                ranked@.len() == i,
                forall|k: int|
                    0 <= k < i ==> #[trigger] ranked@[k] == (
                        table_sum(*ops, move_gain@, fwd@[half@[k] as int]),
                        k as u32,
                    ),
        {
            ranked.push((doc_gain(ops, fwd, half[i], move_gain), i as u32));
        }
        ranked
    }
}

/// Sort by gain, highest first, ties by position. Positions are unique, so the result is the same
/// whichever sort runs.
pub fn sort_by_gain(gains: &mut Vec<(u32, u32)>, parallel: bool)
    ensures
        final(gains)@ == ranking(old(gains)@),
{
    if parallel {
        par_sort_pairs(gains);
    } else {
        sort_pairs(gains);
    }
    proof {
        let leq = |a: (u32, u32), b: (u32, u32)| ranks_before(a, b);
        ranks_before_is_total();
        old(gains)@.lemma_sort_by_ensures(leq);
        vstd::seq_lib::lemma_sorted_unique(gains@, ranking(old(gains)@), leq);
    }
}

/// Entry `t` of `table` is how often the documents of `half` carry term `t`.
pub open spec fn is_degree_table(table: Seq<u32>, docs: Seq<Seq<u32>>, half: Seq<u32>) -> bool {
    forall|t: u32| t < table.len() ==> #[trigger] table[t as int] == degree(docs, half, t)
}

/// How a split went.
#[derive(Clone, Copy, Debug, PartialEq, Eq)]
pub struct Refinement {
    /// The distinct terms of the partition.
    pub terms: u64,
    /// The rounds that ran, and the pairs of documents that they swapped.
    pub rounds: u64,
    pub swaps: u64,
    /// Every round still moved documents: the split stopped at the cap, not because it had settled.
    pub hit_round_limit: bool,
}

/// `how` is how the split of `left` and `right` went.
pub open spec fn is_refinement<F: Fn(CostOp) -> u32>(
    ops: F,
    docs: Seq<Seq<u32>>,
    left: Seq<u32>,
    right: Seq<u32>,
    how: Refinement,
) -> bool {
    &&& how.terms == carried_terms(docs, left + right).len()
    &&& how.rounds == rounds_run(ops, docs, left, right, MAX_ROUNDS as nat)
    &&& how.swaps == swaps_made(ops, docs, left, right, MAX_ROUNDS as nat)
    &&& how.hit_round_limit == moves_throughout(ops, docs, left, right, MAX_ROUNDS as nat)
}

/// Scratch reused down the whole recursion, so a split allocates nothing beyond what the first
/// one needed.
pub struct BisectState {
    deg_left: Vec<u32>,
    deg_right: Vec<u32>,
    /// What moving any one left document lowers a term's cost by. It depends only on the term's
    /// degrees, so it is computed once per term per round rather than once per document carrying
    /// it.
    move_gain_left: Vec<u32>,
    /// The same for a document moving from the right.
    move_gain_right: Vec<u32>,
    /// `term_cost(d, left size)` for the current split, by `d`.
    cost_left: Vec<u32>,
    /// `term_cost(d, right size)` for the current split, by `d`.
    cost_right: Vec<u32>,
    /// Term ids whose degree entries a split touched, so the tables can be cleared in proportion
    /// to the partition rather than to the vocabulary.
    touched: Vec<u32>,
}

impl BisectState {
    /// How many terms the tables have an entry for.
    pub closed spec fn n_terms(&self) -> nat {
        self.deg_left@.len()
    }

    /// The tables all have one entry per term.
    pub closed spec fn wf(&self) -> bool {
        &&& self.deg_right@.len() == self.deg_left@.len()
        &&& self.move_gain_left@.len() == self.deg_left@.len()
        &&& self.move_gain_right@.len() == self.deg_left@.len()
    }

    /// No degree is counted.
    pub closed spec fn clean(&self) -> bool {
        &&& self.wf()
        &&& forall|t: u32| t < self.n_terms() ==> #[trigger] self.deg_left@[t as int] == 0
        &&& forall|t: u32| t < self.n_terms() ==> #[trigger] self.deg_right@[t as int] == 0
        &&& self.touched@.len() == 0
    }

    /// The degree tables count the documents of `left` and of `right`.
    pub closed spec fn counts(&self, docs: Seq<Seq<u32>>, left: Seq<u32>, right: Seq<u32>) -> bool {
        &&& is_degree_table(self.deg_left@, docs, left)
        &&& is_degree_table(self.deg_right@, docs, right)
    }

    /// The touched terms are those carried on either side, each noted once.
    pub closed spec fn notes_touched(&self) -> bool {
        &&& self.touched@.no_duplicates()
        &&& forall|i: int| 0 <= i < self.touched@.len() ==> #[trigger] self.touched@[i] < self.deg_left@.len()
        &&& forall|t: u32|
            t < self.deg_left@.len() ==> (#[trigger] self.touched@.contains(t) <==> (
            self.deg_left@[t as int] > 0 || self.deg_right@[t as int] > 0))
    }

    /// Degrees were counted in `before`: the touched terms are noted, and the tables of gains and
    /// costs are as they were.
    pub closed spec fn counted_from(&self, before: Self) -> bool {
        &&& self.wf()
        &&& self.n_terms() == before.n_terms()
        &&& self.notes_touched()
        &&& self.same_tables(before)
    }

    /// Degrees of `before` were carried from one side to the other, each under its term.
    pub closed spec fn carried_from(&self, before: Self) -> bool {
        &&& self.deg_left@.len() == before.deg_left@.len()
        &&& self.deg_right@.len() == before.deg_right@.len()
        &&& self.touched@ == before.touched@
        &&& self.same_tables(before)
        &&& forall|t: u32|
            t < self.n_terms() ==> #[trigger] self.deg_left@[t as int] + self.deg_right@[t as int]
                == before.deg_left@[t as int] + before.deg_right@[t as int]
    }

    /// The degrees that the touched terms of `before` have were forgotten, which leaves none where
    /// those are the terms that have any. The tables of gains and costs are as they were.
    pub closed spec fn cleared_from(&self, before: Self) -> bool {
        &&& self.wf() == before.wf()
        &&& self.n_terms() == before.n_terms()
        &&& self.same_tables(before)
        &&& self.touched@.len() == 0
        &&& forall|t: u32|
            t < self.n_terms() ==> #[trigger] self.deg_left@[t as int] == if before.touched@.contains(t) {
                0
            } else {
                before.deg_left@[t as int]
            }
        &&& forall|t: u32|
            t < self.n_terms() ==> #[trigger] self.deg_right@[t as int] == if before.touched@.contains(t) {
                0
            } else {
                before.deg_right@[t as int]
            }
    }

    /// Clearing undoes counting: once the degrees counted in a clean state, carried between the
    /// sides in whatever way, are cleared, the state is clean again, with its tables as they were.
    pub proof fn clearing_undoes_counting(clean: Self, counted: Self, carried: Self, cleared: Self)
        requires
            clean.clean(),
            counted.counted_from(clean),
            carried.carried_from(counted),
            cleared.cleared_from(carried),
        ensures
            carried.wf(),
            carried.notes_touched(),
            cleared.clean(),
            cleared.n_terms() == clean.n_terms(),
            cleared.same_tables(clean),
    {
        assert forall|t: u32| t < carried.n_terms() implies (#[trigger] carried.touched@.contains(t) <==> (
        carried.deg_left@[t as int] > 0 || carried.deg_right@[t as int] > 0)) by {
            assert(counted.touched@.contains(t) <==> (counted.deg_left@[t as int] > 0
                || counted.deg_right@[t as int] > 0));
        }
        assert forall|i: int| 0 <= i < carried.touched@.len() implies #[trigger] carried.touched@[i]
            < carried.deg_left@.len() by {
            assert(counted.touched@[i] < counted.deg_left@.len());
        }
        assert forall|t: u32| t < cleared.n_terms() implies #[trigger] cleared.deg_left@[t as int] == 0 by {
            assert(carried.touched@.contains(t) || carried.deg_left@[t as int] == 0);
        }
        assert forall|t: u32| t < cleared.n_terms() implies #[trigger] cleared.deg_right@[t as int] == 0 by {
            assert(carried.touched@.contains(t) || carried.deg_right@[t as int] == 0);
        }
    }

    /// No move gain was computed, and no cost table filled.
    pub closed spec fn fresh(&self) -> bool {
        &&& forall|t: u32| t < self.n_terms() ==> #[trigger] self.move_gain_left@[t as int] == ZERO
        &&& forall|t: u32| t < self.n_terms() ==> #[trigger] self.move_gain_right@[t as int] == ZERO
        &&& self.cost_left@.len() == 0
        &&& self.cost_right@.len() == 0
    }

    /// Scratch for a vocabulary of `n_terms` terms.
    pub fn new(n_terms: usize) -> (state: Self)
        ensures
            state.clean(),
            state.fresh(),
            state.n_terms() == n_terms,
    {
        BisectState {
            deg_left: vec![0u32; n_terms],
            deg_right: vec![0u32; n_terms],
            move_gain_left: vec![0u32; n_terms],
            move_gain_right: vec![0u32; n_terms],
            cost_left: Vec::new(),
            cost_right: Vec::new(),
            touched: Vec::new(),
        }
    }

    /// Count the degrees of the documents before `mid` and of those from it on.
    fn count_degrees(&mut self, fwd: &ForwardIndex, order: &[u32], mid: usize)
        requires
            old(self).clean(),
            fwd.wf(),
            fwd.term_bound() <= old(self).n_terms(),
            countable(fwd@, order@),
            mid <= order@.len(),
        ensures
            final(self).counted_from(*old(self)),
            final(self).counts(fwd@, order@.take(mid as int), order@.skip(mid as int)),
    {
        let ghost docs = fwd@;
        let ghost n_terms = self.n_terms();
        for i in 0..order.len()
            invariant
                docs == fwd@,
                fwd.wf(),
                fwd.term_bound() <= n_terms,
                countable(docs, order@),
                mid <= order@.len(),
                self.wf(),
                self.n_terms() == n_terms,
                self.counts(docs, left_part(order@, mid as int, i as int), right_part(order@, mid as int, i as int)),
                self.notes_touched(),
                self.same_tables(*old(self)),
        {
            let d: u32 = order[i];
            let side_left: bool = i < mid;
            let terms = fwd.doc(d);
            let ghost left = left_part(order@, mid as int, i as int);
            let ghost right = right_part(order@, mid as int, i as int);
            proof {
                assert forall|t: u32| #![trigger degree(docs, left, t)]
                    degree(docs, left, t) + degree(docs, right, t) + occurrences(terms@, t) <= u32::MAX by {
                    lemma_counted_bounded(fwd, order@, mid as int, i as int, t);
                }
            }
            for k in 0..terms.len()
                invariant
                    docs == fwd@,
                    fwd.wf(),
                    fwd.term_bound() <= n_terms,
                    d < docs.len(),
                    terms@ == docs[d as int],
                    self.wf(),
                    self.n_terms() == n_terms,
                    self.notes_touched(),
                    self.same_tables(*old(self)),
                    forall|t: u32| #![trigger degree(docs, left, t)]
                        degree(docs, left, t) + degree(docs, right, t) + occurrences(terms@, t) <= u32::MAX,
                    forall|t: u32|
                        t < n_terms ==> #[trigger] self.deg_left@[t as int] == degree(docs, left, t)
                            + if side_left {
                            occurrences(terms@.take(k as int), t)
                        } else {
                            0
                        },
                    forall|t: u32|
                        t < n_terms ==> #[trigger] self.deg_right@[t as int] == degree(docs, right, t)
                            + if side_left {
                            0
                        } else {
                            occurrences(terms@.take(k as int), t)
                        },
            {
                proof {
                    fwd.lemma_bounds();
                    assert(docs[d as int][k as int] < fwd.term_bound());
                    assert(terms@.take(k + 1).drop_last() =~= terms@.take(k as int));
                    lemma_occurrences_prefix(terms@, k + 1, terms@[k as int]);
                    assert(degree(docs, left, terms@[k as int]) >= 0);
                }
                let t: u32 = terms[k];
                let ghost before = *self;
                // Seen on neither side yet: first sight in this partition.
                if self.deg_left[t as usize] == 0 && self.deg_right[t as usize] == 0 {
                    assert(!self.touched@.contains(t));
                    self.touched.push(t);
                }
                if side_left {
                    self.deg_left[t as usize] = self.deg_left[t as usize] + 1;
                } else {
                    self.deg_right[t as usize] = self.deg_right[t as usize] + 1;
                }
                proof {
                    lemma_touched_kept(before, *self, t);
                }
            }
            proof {
                assert(terms@.take(terms@.len() as int) =~= terms@);
                lemma_part_step(fwd, order@, mid as int, i as int);
            }
        }
        proof {
            assert(left_part(order@, mid as int, order@.len() as int) =~= order@.take(mid as int));
            assert(right_part(order@, mid as int, order@.len() as int) =~= order@.skip(mid as int));
        }
    }

    /// Forget every degree that was counted, in proportion to what was touched.
    fn clear_degrees(&mut self)
        requires
            old(self).wf(),
            old(self).notes_touched(),
        ensures
            final(self).cleared_from(*old(self)),
            final(self).clean(),
            final(self).n_terms() == old(self).n_terms(),
            final(self).same_tables(*old(self)),
    {
        let ghost noted = self.touched@;
        let n_touched: usize = self.touched.len();
        for i in 0..n_touched
            invariant
                n_touched == self.touched@.len(),
                self.wf(),
                self.n_terms() == old(self).n_terms(),
                self.touched@ == noted,
                self.same_tables(*old(self)),
                noted == old(self).touched@,
                old(self).notes_touched(),
                forall|t: u32|
                    t < self.n_terms() && !noted.contains(t) ==> #[trigger] self.deg_left@[t as int] == 0,
                forall|t: u32|
                    t < self.n_terms() && !noted.contains(t) ==> #[trigger] self.deg_right@[t as int] == 0,
                forall|j: int|
                    0 <= j < i ==> self.deg_left@[#[trigger] noted[j] as int] == 0
                        && self.deg_right@[noted[j] as int] == 0,
        {
            assert(noted[i as int] < old(self).deg_left@.len());
            let t: usize = self.touched[i] as usize;
            self.deg_left[t] = 0;
            self.deg_right[t] = 0;
        }
        proof {
            assert forall|t: u32| t < self.n_terms() implies self.deg_left@[t as int] == 0
                && self.deg_right@[t as int] == 0 by {
                if noted.contains(t) {
                    let j = choose|j: int| 0 <= j < noted.len() && noted[j] == t;
                    assert(noted[j] == t);
                }
            }
        }
        self.touched.clear();
    }

    /// Every term carried on a side has its move gain from that side in the table.
    pub closed spec fn has_move_gains<F: Fn(CostOp) -> u32>(&self, ops: F, n_left: u32, n_right: u32) -> bool {
        &&& forall|t: u32|
            t < self.n_terms() && self.deg_left@[t as int] > 0 ==> #[trigger] self.move_gain_left@[t as int]
                == gain_of_move(
                ops,
                self.deg_left@[t as int] as int,
                n_left as int,
                self.deg_right@[t as int] as int,
                n_right as int,
            )
        &&& forall|t: u32|
            t < self.n_terms() && self.deg_right@[t as int] > 0 ==> #[trigger] self.move_gain_right@[t as int]
                == gain_of_move(
                ops,
                self.deg_right@[t as int] as int,
                n_right as int,
                self.deg_left@[t as int] as int,
                n_left as int,
            )
    }

    /// The cost tables are those of halves of `n_left` and `n_right` documents.
    pub closed spec fn has_cost_tables<F: Fn(CostOp) -> u32>(&self, ops: F, n_left: u32, n_right: u32) -> bool {
        &&& is_cost_table(ops, self.cost_left@, n_left)
        &&& is_cost_table(ops, self.cost_right@, n_right)
    }

    /// No term is carried more often, on both sides together, than a table entry can hold.
    pub closed spec fn degrees_fit(&self) -> bool {
        forall|t: u32|
            t < self.n_terms() ==> #[trigger] self.deg_left@[t as int] + self.deg_right@[t as int] <= u32::MAX
    }

    /// The move gains and the cost tables are as in `other`.
    pub closed spec fn same_tables(&self, other: Self) -> bool {
        &&& self.move_gain_left@ == other.move_gain_left@
        &&& self.move_gain_right@ == other.move_gain_right@
        &&& self.cost_left@ == other.cost_left@
        &&& self.cost_right@ == other.cost_right@
    }

    /// A side that carries a term nowhere has the move gain of `other`.
    pub closed spec fn skipped_gains_as(&self, other: Self) -> bool {
        &&& forall|t: u32|
            t < self.n_terms() && self.deg_left@[t as int] == 0 ==> #[trigger] self.move_gain_left@[t as int]
                == other.move_gain_left@[t as int]
        &&& forall|t: u32|
            t < self.n_terms() && self.deg_right@[t as int] == 0 ==> #[trigger] self.move_gain_right@[t as int]
                == other.move_gain_right@[t as int]
    }

    /// Everything but the move gains is as in `other`.
    pub closed spec fn same_but_gains(&self, other: Self) -> bool {
        &&& self.deg_left@ == other.deg_left@
        &&& self.deg_right@ == other.deg_right@
        &&& self.touched@ == other.touched@
        &&& self.cost_left@ == other.cost_left@
        &&& self.cost_right@ == other.cost_right@
    }

    /// Fill the move gains of every term in the partition from its current degrees. A side's gain
    /// is only read by documents on that side carrying the term, so a side with no such document
    /// is skipped.
    fn compute_move_gains<F: Fn(CostOp) -> u32>(&mut self, ops: &F, n_left: u32, n_right: u32)
        requires
            is_arithmetic(*ops),
            old(self).wf(),
            old(self).notes_touched(),
            old(self).has_cost_tables(*ops, n_left, n_right),
            old(self).degrees_fit(),
        ensures
            final(self).wf(),
            final(self).same_but_gains(*old(self)),
            final(self).has_move_gains(*ops, n_left, n_right),
            final(self).skipped_gains_as(*old(self)),
    {
        let n_touched: usize = self.touched.len();
        for i in 0..n_touched
            invariant
                n_touched == self.touched@.len(),
                is_arithmetic(*ops),
                self.wf(),
                self.same_but_gains(*old(self)),
                self.skipped_gains_as(*old(self)),
                self.notes_touched(),
                self.has_cost_tables(*ops, n_left, n_right),
                self.degrees_fit(),
                forall|j: int| #![trigger self.touched@[j]]
                    0 <= j < i ==> {
                        let t = self.touched@[j] as int;
                        let dl = self.deg_left@[t] as int;
                        let dr = self.deg_right@[t] as int;
                        &&& dl > 0 ==> self.move_gain_left@[t] == gain_of_move(
                            *ops,
                            dl,
                            n_left as int,
                            dr,
                            n_right as int,
                        )
                        &&& dr > 0 ==> self.move_gain_right@[t] == gain_of_move(
                            *ops,
                            dr,
                            n_right as int,
                            dl,
                            n_left as int,
                        )
                    },
        {
            assert(self.touched@[i as int] < self.deg_left@.len());
            let t: usize = self.touched[i] as usize;
            let dl: u32 = self.deg_left[t];
            let dr: u32 = self.deg_right[t];
            assert(self.deg_left@[self.touched@[i as int] as int] + self.deg_right@[t as int] <= u32::MAX);
            if dl > 0 {
                let left = Side { deg: dl, size: n_left, costs: self.cost_left.as_slice() };
                let right = Side { deg: dr, size: n_right, costs: self.cost_right.as_slice() };
                let gain: u32 = move_gain(ops, &left, &right);
                self.move_gain_left[t] = gain;
            }
            if dr > 0 {
                let left = Side { deg: dl, size: n_left, costs: self.cost_left.as_slice() };
                let right = Side { deg: dr, size: n_right, costs: self.cost_right.as_slice() };
                let gain: u32 = move_gain(ops, &right, &left);
                self.move_gain_right[t] = gain;
            }
        }
        proof {
            assert forall|t: u32|
                t < self.n_terms() && (self.deg_left@[t as int] > 0 || self.deg_right@[t as int] > 0) implies exists|
                j: int,
            | 0 <= j < self.touched@.len() && #[trigger] self.touched@[j] == t by {
                assert(self.touched@.contains(t));
            }
        }
    }

    /// The degree tables count `left` and `right`, the touched terms are noted, and no degree can
    /// grow past what a table entry holds.
    pub closed spec fn ready(&self, fwd: &ForwardIndex, left: Seq<u32>, right: Seq<u32>) -> bool {
        &&& self.wf()
        &&& fwd.wf()
        &&& fwd.term_bound() <= self.n_terms()
        &&& self.counts(fwd@, left, right)
        &&& self.notes_touched()
        &&& self.degrees_fit()
        &&& forall|i: int| 0 <= i < left.len() ==> #[trigger] left[i] < fwd@.len()
        &&& forall|i: int| 0 <= i < right.len() ==> #[trigger] right[i] < fwd@.len()
    }

    /// Swap the documents of the two rankings in pairs, so the halves keep their sizes, for as
    /// long as a pair gains by it. Both rankings are sorted by gain, so once a pair does not pay
    /// for itself no later pair can either. The degree tables follow the documents across.
    fn swap_pairs<F: Fn(CostOp) -> u32>(
        &mut self,
        ops: &F,
        fwd: &ForwardIndex,
        left: &mut [u32],
        right: &mut [u32],
        left_gains: &Vec<(u32, u32)>,
        right_gains: &Vec<(u32, u32)>,
    ) -> (swaps: usize)
        requires
            is_arithmetic(*ops),
            old(self).ready(fwd, old(left)@, old(right)@),
            forall|j: int| 0 <= j < left_gains@.len() ==> (#[trigger] left_gains@[j]).1 < old(left)@.len(),
            forall|j: int| 0 <= j < right_gains@.len() ==> (#[trigger] right_gains@[j]).1 < old(right)@.len(),
        ensures
            swaps == paying_pairs(*ops, left_gains@, right_gains@, 0),
            (final(left)@, final(right)@) == swapped(
                old(left)@,
                old(right)@,
                left_gains@,
                right_gains@,
                swaps as nat,
            ),
            final(self).ready(fwd, final(left)@, final(right)@),
            final(self).carried_from(*old(self)),
    {
        let ghost docs = fwd@;
        let ghost left0 = left@;
        let ghost right0 = right@;
        let pairs: usize = if left_gains.len() < right_gains.len() {
            left_gains.len()
        } else {
            right_gains.len()
        };
        let mut swaps: usize = 0;
        while swaps < pairs
            invariant
                is_arithmetic(*ops),
                docs == fwd@,
                pairs <= left_gains@.len(),
                pairs <= right_gains@.len(),
                pairs == left_gains@.len() || pairs == right_gains@.len(),
                swaps <= pairs,
                left@.len() == left0.len(),
                right@.len() == right0.len(),
                forall|j: int| 0 <= j < left_gains@.len() ==> (#[trigger] left_gains@[j]).1 < left0.len(),
                forall|j: int| 0 <= j < right_gains@.len() ==> (#[trigger] right_gains@[j]).1 < right0.len(),
                paying_pairs(*ops, left_gains@, right_gains@, 0) == swaps + paying_pairs(
                    *ops,
                    left_gains@,
                    right_gains@,
                    swaps as int,
                ),
                (left@, right@) == swapped(left0, right0, left_gains@, right_gains@, swaps as nat),
                self.ready(fwd, left@, right@),
                self.carried_from(*old(self)),
            ensures
                swaps == paying_pairs(*ops, left_gains@, right_gains@, 0),
            decreases pairs - swaps,
        {
            let l = left_gains[swaps];
            let r = right_gains[swaps];
            let sum: u32 = ops(CostOp::Add(l.0, r.0));
            if at_most_zero(sum) {
                break;
            }
            let ghost left1 = left@;
            let ghost right1 = right@;
            let ghost before = *self;
            assert(left_gains@[swaps as int].1 < left0.len());
            assert(right_gains@[swaps as int].1 < right0.len());
            let li: usize = l.1 as usize;
            let ri: usize = r.1 as usize;
            let ld: u32 = left[li];
            let rd: u32 = right[ri];
            proof {
                assert(left1[li as int] == ld && right1[ri as int] == rd);
                assert forall|t: u32| t < self.n_terms() implies occurrences(docs[ld as int], t)
                    <= #[trigger] self.deg_left@[t as int] by {
                    lemma_degree_of_member(docs, left1, li as int, t);
                }
                assert forall|t: u32| t < self.n_terms() implies occurrences(docs[rd as int], t)
                    <= #[trigger] self.deg_right@[t as int] by {
                    lemma_degree_of_member(docs, right1, ri as int, t);
                }
            }
            shift_terms(fwd, ld, &mut self.deg_left, &mut self.deg_right);
            proof {
                assert forall|t: u32| t < self.n_terms() implies occurrences(docs[rd as int], t)
                    <= #[trigger] self.deg_right@[t as int] by {
                    assert(occurrences(docs[rd as int], t) <= before.deg_right@[t as int]);
                }
            }
            shift_terms(fwd, rd, &mut self.deg_right, &mut self.deg_left);
            left[li] = rd;
            right[ri] = ld;
            swaps = swaps + 1;
            proof {
                assert forall|t: u32| t < self.n_terms() implies #[trigger] self.deg_left@[t as int]
                    == degree(docs, left@, t) by {
                    assert(before.deg_left@[t as int] == degree(docs, left1, t));
                    lemma_degree_update(docs, left1, li as int, rd, t);
                }
                assert forall|t: u32| t < self.n_terms() implies #[trigger] self.deg_right@[t as int]
                    == degree(docs, right@, t) by {
                    assert(before.deg_right@[t as int] == degree(docs, right1, t));
                    lemma_degree_update(docs, right1, ri as int, ld, t);
                }
                assert forall|t: u32| t < self.n_terms() implies #[trigger] self.deg_left@[t as int]
                    + self.deg_right@[t as int] == before.deg_left@[t as int] + before.deg_right@[t as int] by {}
                assert(self.notes_touched());
            }
        }
        swaps
    }

    /// Move documents across the split while it lowers the cost, then leave the two halves in
    /// `order`. `parallel` spreads each round's gains and sorts across threads. How the split went is
    /// returned.
    pub fn refine<F: Fn(CostOp) -> u32 + Sync>(
        &mut self,
        ops: &F,
        fwd: &ForwardIndex,
        order: &mut [u32],
        mid: usize,
        parallel: bool,
    ) -> (how: Refinement)
        requires
            is_arithmetic(*ops),
            old(self).clean(),
            fwd.wf(),
            fwd.term_bound() <= old(self).n_terms(),
            countable(fwd@, old(order)@),
            old(order)@.len() <= u32::MAX,
            mid <= old(order)@.len(),
        ensures
            final(self).clean(),
            final(self).n_terms() == old(self).n_terms(),
            ({
                let (left, right) = refined(
                    *ops,
                    fwd@,
                    old(order)@.take(mid as int),
                    old(order)@.skip(mid as int),
                    MAX_ROUNDS as nat,
                );
                final(order)@ == left + right
            }),
            is_refinement(
                *ops,
                fwd@,
                old(order)@.take(mid as int),
                old(order)@.skip(mid as int),
                how,
            ),
    {
        let ghost docs = fwd@;
        let ghost start = order@;
        self.count_degrees(fwd, order, mid);
        let n_left: u32 = mid as u32;
        let n_right: u32 = (order.len() - mid) as u32;
        fill_cost_table(ops, &mut self.cost_left, n_left);
        fill_cost_table(ops, &mut self.cost_right, n_right);
        proof {
            lemma_start_ready(*self, fwd, start, mid as int);
        }
        let ghost left_start = start.take(mid as int);
        let ghost right_start = start.skip(mid as int);
        let ghost max = MAX_ROUNDS as nat;
        let mut round_no: usize = 0;
        let mut swaps: u64 = 0;
        let mut last_moved: usize = 0;
        while round_no < MAX_ROUNDS
            invariant_except_break
                refined(*ops, docs, start.take(mid as int), start.skip(mid as int), MAX_ROUNDS as nat)
                    == refined(
                    *ops,
                    docs,
                    order@.take(mid as int),
                    order@.skip(mid as int),
                    (MAX_ROUNDS - round_no) as nat,
                ),
                rounds_run(*ops, docs, left_start, right_start, max) == round_no + rounds_run(
                    *ops,
                    docs,
                    order@.take(mid as int),
                    order@.skip(mid as int),
                    (MAX_ROUNDS - round_no) as nat,
                ),
                swaps_made(*ops, docs, left_start, right_start, max) == swaps + swaps_made(
                    *ops,
                    docs,
                    order@.take(mid as int),
                    order@.skip(mid as int),
                    (MAX_ROUNDS - round_no) as nat,
                ),
                moves_throughout(*ops, docs, left_start, right_start, max) == moves_throughout(
                    *ops,
                    docs,
                    order@.take(mid as int),
                    order@.skip(mid as int),
                    (MAX_ROUNDS - round_no) as nat,
                ),
                round_no > 0 ==> last_moved > 0,
            invariant
                left_start == start.take(mid as int),
                right_start == start.skip(mid as int),
                max == MAX_ROUNDS,
                swaps <= round_no * u32::MAX,
                order@.to_multiset() == start.to_multiset(),
                is_arithmetic(*ops),
                docs == fwd@,
                round_no <= MAX_ROUNDS,
                start.len() <= u32::MAX,
                mid <= start.len(),
                order@.len() == start.len(),
                n_left == mid,
                n_right == start.len() - mid,
                self.ready(fwd, order@.take(mid as int), order@.skip(mid as int)),
                self.has_cost_tables(*ops, n_left, n_right),
                self.n_terms() == old(self).n_terms(),
            ensures
                refined(*ops, docs, start.take(mid as int), start.skip(mid as int), MAX_ROUNDS as nat) == (
                    order@.take(mid as int),
                    order@.skip(mid as int),
                ),
                round_no == rounds_run(*ops, docs, left_start, right_start, max),
                swaps == swaps_made(*ops, docs, left_start, right_start, max),
                (round_no == MAX_ROUNDS && last_moved > 0) == moves_throughout(
                    *ops,
                    docs,
                    left_start,
                    right_start,
                    max,
                ),
            decreases MAX_ROUNDS - round_no,
        {
            round_no = round_no + 1;
            let ghost start0 = order@;
            let ghost left0 = order@.take(mid as int);
            let ghost right0 = order@.skip(mid as int);
            // A document's gain is what the cost drops by if it moves: its terms get one rarer on
            // this side and one commoner on the other. Positive means the move is worth making.
            self.compute_move_gains(ops, n_left, n_right);
            let (left, right) = order.split_at_mut(mid);
            assert(left@ =~= left0);
            assert(right@ =~= right0);
            let mut left_gains = rank_by_gain(ops, fwd, left, self.move_gain_left.as_slice(), parallel);
            let mut right_gains = rank_by_gain(ops, fwd, right, self.move_gain_right.as_slice(), parallel);
            proof {
                lemma_gains_ranked(*ops, *self, fwd, left0, right0);
                assert(left_gains@ =~= gains(*ops, docs, left0, right0));
                assert(right_gains@ =~= gains(*ops, docs, right0, left0));
                lemma_ranked_positions(*ops, docs, left0, right0);
                lemma_ranked_positions(*ops, docs, right0, left0);
                lemma_paying_bounded(*ops, ranking(left_gains@), ranking(right_gains@), 0);
            }
            sort_by_gain(&mut left_gains, parallel);
            sort_by_gain(&mut right_gains, parallel);
            let moved: usize = self.swap_pairs(ops, fwd, left, right, &left_gains, &right_gains);
            proof {
                lemma_swapped(left0, right0, left_gains@, right_gains@, moved as nat);
                let (l, r) = round(*ops, docs, left0, right0);
                assert(order@ == l + r);
                assert(order@.take(mid as int) =~= l);
                assert(order@.skip(mid as int) =~= r);
                assert(left0 + right0 =~= start0);
                assert(moved <= u32::MAX);
            }
            swaps = swaps + moved as u64;
            last_moved = moved;
            if moved == 0 {
                break;
            }
        }
        proof {
            assert(order@ =~= order@.take(mid as int) + order@.skip(mid as int));
            assert(left_start + right_start =~= start);
            lemma_touched_count(*self, fwd, start, order@, mid as int);
        }
        let how = Refinement {
            terms: self.touched.len() as u64,
            rounds: round_no as u64,
            swaps,
            hit_round_limit: round_no == MAX_ROUNDS && last_moved > 0,
        };
        self.clear_degrees();
        how
    }

    /// Split `order` in two, refine the split, and split each half in turn, down to partitions
    /// not worth splitting.
    pub fn split<F: Fn(CostOp) -> u32 + Sync>(
        &mut self,
        ops: &F,
        fwd: &ForwardIndex,
        order: &mut [u32],
        depth: u32,
    )
        requires
            is_arithmetic(*ops),
            old(self).clean(),
            fwd.wf(),
            fwd.term_bound() <= old(self).n_terms(),
            countable(fwd@, old(order)@),
            old(order)@.len() <= u32::MAX,
        ensures
            final(self).clean(),
            final(self).n_terms() == old(self).n_terms(),
            final(order)@ == split_order(*ops, fwd@, old(order)@, depth as nat),
        decreases MAX_DEPTH - depth,
    {
        if order.len() <= MIN_PARTITION || depth >= MAX_DEPTH {
            return;
        }
        let ghost start = order@;
        let mid: usize = order.len() / 2;
        self.refine(ops, fwd, order, mid, false);
        proof {
            lemma_halves_countable(*ops, fwd@, start, mid as int);
        }
        let ghost (l, r) = refined(*ops, fwd@, start.take(mid as int), start.skip(mid as int), MAX_ROUNDS as nat);
        let (left, right) = order.split_at_mut(mid);
        assert(left@ =~= l);
        assert(right@ =~= r);
        self.split(ops, fwd, left, depth + 1);
        self.split(ops, fwd, right, depth + 1);
    }
}

/// What the pool keeps: the states that no split has in hand, and how many were made so far.
pub struct Pooled {
    pub free: Vec<BisectState>,
    pub made: u64,
}

impl Pooled {
    /// Take the state that was put back last. Where none is free the state that is to be made is
    /// counted.
    pub fn take(&mut self) -> (taken: Option<BisectState>)
        ensures
            old(self).free@.len() > 0 ==> {
                &&& taken == Some(old(self).free@.last())
                &&& final(self).free@ == old(self).free@.drop_last()
                &&& final(self).made == old(self).made
            },
            old(self).free@.len() == 0 ==> {
                &&& taken is None
                &&& final(self).free@ == old(self).free@
                &&& final(self).made == if old(self).made < u64::MAX {
                    (old(self).made + 1) as u64
                } else {
                    u64::MAX
                }
            },
    {
        let taken = self.free.pop();
        if taken.is_none() {
            self.made = self.made.saturating_add(1);
        }
        taken
    }

    /// Put a state back, to be taken next.
    pub fn put_back(&mut self, state: BisectState)
        ensures
            final(self).free@ == old(self).free@.push(state),
            final(self).made == old(self).made,
    {
        self.free.push(state);
    }
}

/// What holds of the states kept: they are of one size, with nothing counted in them.
pub struct CleanStates {
    pub n_terms: usize,
}

impl RwLockPredicate<Pooled> for CleanStates {
    open spec fn inv(self, pooled: Pooled) -> bool {
        forall|i: int| 0 <= i < pooled.free@.len() ==> fits(#[trigger] pooled.free@[i], self.n_terms)
    }
}

/// A scratch state for `n_terms` terms with nothing counted in it.
pub open spec fn fits(state: BisectState, n_terms: usize) -> bool {
    state.clean() && state.n_terms() == n_terms
}

/// Scratch states shared by the parallel splits. A split takes one and puts it back clean, so
/// only as many exist as ever ran at once.
pub struct StatePool {
    n_terms: usize,
    pooled: RwLock<Pooled, CleanStates>,
}

impl StatePool {
    /// The states are made for as many terms as the pool was.
    pub closed spec fn wf(&self) -> bool {
        self.pooled.pred().n_terms == self.n_terms
    }

    /// How many terms the states have an entry for.
    pub closed spec fn n_terms(&self) -> usize {
        self.n_terms
    }

    /// A pool of states for `n_terms` terms, with none made yet.
    pub fn new(n_terms: usize) -> (pool: Self)
        ensures
            pool.wf(),
            pool.n_terms() == n_terms,
    {
        let pooled = Pooled { free: Vec::new(), made: 0 };
        StatePool { n_terms, pooled: RwLock::new(pooled, Ghost(CleanStates { n_terms })) }
    }

    /// Run `f` on a state of the pool, made if none is free, and put the state back.
    pub fn with_state<R, G: FnOnce(&mut BisectState) -> R>(&self, f: G) -> (out: R)
        requires
            self.wf(),
            forall|s: &mut BisectState| fits(*s, self.n_terms()) ==> #[trigger] f.requires((s,)),
            forall|s: &mut BisectState, r: R|
                fits(*s, self.n_terms()) && #[trigger] f.ensures((s,), r) ==> fits(
                    *final(s),
                    self.n_terms(),
                ),
        ensures
            exists|s: &mut BisectState| fits(*s, self.n_terms()) && #[trigger] f.ensures((s,), out),
    {
        let (mut pooled, handle) = self.pooled.acquire_write();
        let taken = pooled.take();
        handle.release_write(pooled);
        let mut state = match taken {
            Some(state) => state,
            None => BisectState::new(self.n_terms),
        };
        let out = f(&mut state);
        let (mut pooled, handle) = self.pooled.acquire_write();
        pooled.put_back(state);
        handle.release_write(pooled);
        out
    }

    /// How many states were made so far. It is as many as ever ran at once, which is up to how
    /// the threads ran, so nothing is said of it.
    pub fn made(&self) -> (n: u64)
        requires
            self.wf(),
    {
        let (pooled, handle) = self.pooled.acquire_write();
        let n: u64 = pooled.made;
        handle.release_write(pooled);
        n
    }
}

/// What became of one partition of the parallel splitting.
#[derive(Clone, Copy, Debug, PartialEq, Eq)]
pub struct SplitReport {
    pub depth: u32,
    /// The documents of the partition.
    pub docs: usize,
    /// How the split of a large partition went. A smaller one is split on one thread, and this is
    /// `None`.
    pub how: Option<Refinement>,
}

/// `reports` tell of every partition that splitting `order` in parallel comes to: of the whole, then,
/// where it is large, of those of its left half, then of those of its right.
pub open spec fn are_reports<F: Fn(CostOp) -> u32>(
    ops: F,
    docs: Seq<Seq<u32>>,
    order: Seq<u32>,
    depth: nat,
    reports: Seq<SplitReport>,
) -> bool
    decreases MAX_DEPTH - depth,
{
    if order.len() < PARALLEL_MIN_PARTITION {
        reports.len() == 1 && reports[0].depth == depth && reports[0].docs == order.len()
            && reports[0].how is None
    } else if depth >= MAX_DEPTH {
        reports.len() == 0
    } else {
        let mid = (order.len() / 2) as int;
        let (left, right) = refined(ops, docs, order.take(mid), order.skip(mid), MAX_ROUNDS as nat);
        &&& reports.len() > 0
        &&& reports[0].depth == depth
        &&& reports[0].docs == order.len()
        &&& reports[0].how is Some
        &&& is_refinement(ops, docs, order.take(mid), order.skip(mid), reports[0].how->0)
        &&& exists|n: int|
            1 <= n <= reports.len() && are_reports(
                ops,
                docs,
                left,
                depth + 1,
                #[trigger] reports.subrange(1, n),
            ) && are_reports(ops, docs, right, depth + 1, reports.skip(n))
    }
}

/// Split `order` as [`BisectState::split`] does, running the two halves of a large partition in
/// parallel. What became of each partition is returned with the order.
pub fn split_parallel<F: Fn(CostOp) -> u32 + Sync>(
    ops: &F,
    fwd: &ForwardIndex,
    order: Vec<u32>,
    depth: u32,
    pool: &StatePool,
) -> (split: (Vec<u32>, Vec<SplitReport>))
    requires
        is_arithmetic(*ops),
        fwd.wf(),
        pool.wf(),
        fwd.term_bound() <= pool.n_terms(),
        countable(fwd@, order@),
        order@.len() <= u32::MAX,
    ensures
        split.0@ == split_order(*ops, fwd@, order@, depth as nat),
        are_reports(*ops, fwd@, order@, depth as nat, split.1@),
    decreases MAX_DEPTH - depth,
{
    let ghost start = order@;
    let n_docs: usize = order.len();
    if n_docs < PARALLEL_MIN_PARTITION {
        let whole = move |state: &mut BisectState| -> (out: Vec<u32>)
            requires
                fits(*old(state), pool.n_terms()),
            ensures
                fits(*final(state), pool.n_terms()),
                out@ == split_order(*ops, fwd@, start, depth as nat),
            {
                let mut order = order;
                state.split(ops, fwd, order.as_mut_slice(), depth);
                order
            };
        let split = pool.with_state(whole);
        let mut reports: Vec<SplitReport> = Vec::new();
        reports.push(SplitReport { depth, docs: n_docs, how: None });
        return (split, reports);
    }
    if depth >= MAX_DEPTH {
        return (order, Vec::new());
    }
    let mid: usize = n_docs / 2;
    let ghost halves = refined(*ops, fwd@, start.take(mid as int), start.skip(mid as int), MAX_ROUNDS as nat);
    let refine = move |state: &mut BisectState| -> (out: (Vec<u32>, Refinement))
        requires
            fits(*old(state), pool.n_terms()),
        ensures
            fits(*final(state), pool.n_terms()),
            out.0@ == halves.0 + halves.1,
            is_refinement(*ops, fwd@, start.take(mid as int), start.skip(mid as int), out.1),
        {
            let mut order = order;
            let how = state.refine(ops, fwd, order.as_mut_slice(), mid, true);
            (order, how)
        };
    let (refined_order, how) = pool.with_state(refine);
    let mut left = refined_order;
    proof {
        lemma_halves_countable(*ops, fwd@, start, mid as int);
    }
    let right = left.split_off(mid);
    assert(left@ =~= halves.0);
    assert(right@ =~= halves.1);
    let deeper: u32 = depth + 1;
    let split_left = move || -> (out: (Vec<u32>, Vec<SplitReport>))
        ensures
            out.0@ == split_order(*ops, fwd@, halves.0, deeper as nat),
            are_reports(*ops, fwd@, halves.0, deeper as nat, out.1@),
        {
            split_parallel(ops, fwd, left, deeper, pool)
        };
    let split_right = move || -> (out: (Vec<u32>, Vec<SplitReport>))
        ensures
            out.0@ == split_order(*ops, fwd@, halves.1, deeper as nat),
            are_reports(*ops, fwd@, halves.1, deeper as nat, out.1@),
        {
            split_parallel(ops, fwd, right, deeper, pool)
        };
    let (front, back) = rayon::join(split_left, split_right);
    let (mut split, front_reports) = front;
    let (mut back_split, back_reports) = back;
    let mut front_reports = front_reports;
    let mut back_reports = back_reports;
    split.append(&mut back_split);
    let mut reports: Vec<SplitReport> = Vec::new();
    let ghost front0 = front_reports@;
    let ghost back0 = back_reports@;
    reports.push(SplitReport { depth, docs: n_docs, how: Some(how) });
    reports.append(&mut front_reports);
    reports.append(&mut back_reports);
    proof {
        let n = 1 + front0.len() as int;
        assert(reports@.subrange(1, n) =~= front0);
        assert(reports@.skip(n) =~= back0);
    }
    (split, reports)
}

/// The order of a corpus, and what became of its partitions.
#[derive(Debug)]
pub struct Bisection {
    pub order: Vec<u32>,
    pub splits: Vec<SplitReport>,
    /// The scratch states that were made: none where there was nothing to split, and otherwise as
    /// many as ever ran at once.
    pub states: u64,
}

/// The order to store documents in, as [`bisect_order`] gives it, and what became of the partitions
/// that were split in parallel.
pub fn bisect<F: Fn(CostOp) -> u32 + Sync>(ops: &F, fwd: &ForwardIndex) -> (bisection: Bisection)
    requires
        is_arithmetic(*ops),
        fwd.wf(),
        fwd@.len() <= u32::MAX,
    ensures
        bisection.order@ == storage_order(*ops, fwd@),
        if fwd@.len() <= MIN_PARTITION || no_shared_term(fwd@) {
            bisection.splits@.len() == 0
        } else {
            are_reports(*ops, fwd@, arrival_order(fwd@.len()), 0, bisection.splits@)
        },
        fwd@.len() <= MIN_PARTITION || no_shared_term(fwd@) ==> bisection.states == 0,
{
    let n: usize = fwd.len();
    let mut order: Vec<u32> = Vec::new();
    for i in 0..n as u32
        invariant
            order@ == arrival_order(i as nat),
    {
        order.push(i);
        assert(order@ =~= arrival_order((i + 1) as nat));
    }
    if n <= MIN_PARTITION || fwd.shares_no_term() {
        return Bisection { order, splits: Vec::new(), states: 0 };
    }
    proof {
        arrival_order_is_distinct(fwd@);
        fwd.lemma_bounds();
        assert forall|t: u32| #[trigger] degree(fwd@, order@, t) <= u32::MAX by {
            lemma_degree_bounded(fwd@, order@, t);
        }
    }
    let pool = StatePool::new(fwd.n_terms());
    let (order, splits) = split_parallel(ops, fwd, order, 0, &pool);
    Bisection { order, splits, states: pool.made() }
}

/// The order to store documents in: `order[new_id]` is the index of the document that should take
/// `new_id`.
///
/// The identity when there is nothing to gain, which is a corpus too small to split or one whose
/// documents share no terms.
pub fn bisect_order<F: Fn(CostOp) -> u32 + Sync>(ops: &F, fwd: &ForwardIndex) -> (order: Vec<u32>)
    requires
        is_arithmetic(*ops),
        fwd.wf(),
        fwd@.len() <= u32::MAX,
    ensures
        order@ == storage_order(*ops, fwd@),
        fwd@.len() <= MIN_PARTITION || no_shared_term(fwd@) ==> order@ == arrival_order(fwd@.len()),
        order@.to_multiset() == arrival_order(fwd@.len()).to_multiset(),
        order@.len() == fwd@.len(),
        distinct_docs(fwd@, order@),
{
    let bisection = bisect(ops, fwd);
    proof {
        let arrival = arrival_order(fwd@.len());
        arrival_order_is_distinct(fwd@);
        split_order_is_permutation(*ops, fwd@, arrival, 0);
        lemma_rearranged_distinct(fwd@, arrival, bisection.order@);
    }
    bisection.order
}

/// The halves of a refined split can be counted, and are as large as before.
proof fn lemma_halves_countable<F: Fn(CostOp) -> u32>(
    ops: F,
    docs: Seq<Seq<u32>>,
    order: Seq<u32>,
    mid: int,
)
    requires
        countable(docs, order),
        order.len() <= u32::MAX,
        0 <= mid <= order.len(),
    ensures
        ({
            let (l, r) = refined(ops, docs, order.take(mid), order.skip(mid), MAX_ROUNDS as nat);
            &&& l.len() == mid
            &&& r.len() == order.len() - mid
            &&& countable(docs, l)
            &&& countable(docs, r)
            &&& (l + r).to_multiset() == order.to_multiset()
        }),
{
    let (l, r) = refined(ops, docs, order.take(mid), order.skip(mid), MAX_ROUNDS as nat);
    refined_keeps_documents(ops, docs, order.take(mid), order.skip(mid), MAX_ROUNDS as nat);
    assert(order.take(mid) + order.skip(mid) =~= order);
    let both = l + r;
    lemma_countable_rearranged(docs, order, both);
    assert forall|i: int| 0 <= i < l.len() implies #[trigger] l[i] < docs.len() by {
        assert(both[i] == l[i]);
    }
    assert forall|i: int| 0 <= i < r.len() implies #[trigger] r[i] < docs.len() by {
        assert(both[l.len() + i] == r[i]);
    }
    assert forall|t: u32| #[trigger] degree(docs, l, t) <= u32::MAX by {
        lemma_degree_concat(docs, l, r, t);
        assert(degree(docs, both, t) <= u32::MAX);
    }
    assert forall|t: u32| #[trigger] degree(docs, r, t) <= u32::MAX by {
        lemma_degree_concat(docs, l, r, t);
        assert(degree(docs, both, t) <= u32::MAX);
    }
}

/// Freshly counted tables are ready for the first round.
proof fn lemma_start_ready(state: BisectState, fwd: &ForwardIndex, order: Seq<u32>, mid: int)
    requires
        state.wf(),
        fwd.wf(),
        fwd.term_bound() <= state.n_terms(),
        countable(fwd@, order),
        0 <= mid <= order.len(),
        state.counts(fwd@, order.take(mid), order.skip(mid)),
        state.notes_touched(),
    ensures
        state.ready(fwd, order.take(mid), order.skip(mid)),
{
    fwd.lemma_bounds();
    assert forall|t: u32| t < state.n_terms() implies #[trigger] state.deg_left@[t as int]
        + state.deg_right@[t as int] <= u32::MAX by {
        assert(state.deg_right@[t as int] == degree(fwd@, order.skip(mid), t));
        lemma_degree_concat(fwd@, order.take(mid), order.skip(mid), t);
        assert(order.take(mid) + order.skip(mid) =~= order);
        assert(degree(fwd@, order, t) <= u32::MAX);
    }
}

/// Summing a table of move gains over a document's terms gives the document's gain.
proof fn lemma_table_sum<F: Fn(CostOp) -> u32>(
    ops: F,
    table: Seq<u32>,
    docs: Seq<Seq<u32>>,
    here: Seq<u32>,
    there: Seq<u32>,
    terms: Seq<u32>,
)
    requires
        forall|k: int|
            0 <= k < terms.len() ==> table[#[trigger] terms[k] as int] == term_gain(
                ops,
                docs,
                here,
                there,
                terms[k],
            ),
    ensures
        table_sum(ops, table, terms) == sum_of_gains(ops, docs, here, there, terms),
    decreases terms.len(),
{
    if terms.len() > 0 {
        let fewer = terms.drop_last();
        assert forall|k: int| 0 <= k < fewer.len() implies table[#[trigger] fewer[k] as int] == term_gain(
            ops,
            docs,
            here,
            there,
            fewer[k],
        ) by {
            assert(fewer[k] == terms[k]);
        }
        lemma_table_sum(ops, table, docs, here, there, fewer);
        assert(terms[terms.len() - 1] == terms.last());
    }
}

/// With the move gains filled in, ranking each half by its table gives each half's gains.
proof fn lemma_gains_ranked<F: Fn(CostOp) -> u32>(
    ops: F,
    state: BisectState,
    fwd: &ForwardIndex,
    left: Seq<u32>,
    right: Seq<u32>,
)
    requires
        state.ready(fwd, left, right),
        left.len() <= u32::MAX,
        right.len() <= u32::MAX,
        state.has_move_gains(ops, left.len() as u32, right.len() as u32),
    ensures
        forall|i: int|
            0 <= i < left.len() ==> table_sum(ops, state.move_gain_left@, fwd@[#[trigger] left[i] as int])
                == sum_of_gains(ops, fwd@, left, right, fwd@[left[i] as int]),
        forall|i: int|
            0 <= i < right.len() ==> table_sum(ops, state.move_gain_right@, fwd@[#[trigger] right[i] as int])
                == sum_of_gains(ops, fwd@, right, left, fwd@[right[i] as int]),
{
    let docs = fwd@;
    fwd.lemma_bounds();
    assert forall|i: int| 0 <= i < left.len() implies table_sum(
        ops,
        state.move_gain_left@,
        docs[#[trigger] left[i] as int],
    ) == sum_of_gains(ops, docs, left, right, docs[left[i] as int]) by {
        let terms = docs[left[i] as int];
        assert forall|k: int| 0 <= k < terms.len() implies state.move_gain_left@[#[trigger] terms[k] as int]
            == term_gain(ops, docs, left, right, terms[k]) by {
            let t = terms[k];
            assert(docs[left[i] as int][k] < fwd.term_bound());
            lemma_occurrences_of_member(terms, k);
            lemma_degree_of_member(docs, left, i, t);
            assert(state.deg_left@[t as int] == degree(docs, left, t));
            assert(state.deg_right@[t as int] == degree(docs, right, t));
        }
        lemma_table_sum(ops, state.move_gain_left@, docs, left, right, terms);
    }
    assert forall|i: int| 0 <= i < right.len() implies table_sum(
        ops,
        state.move_gain_right@,
        docs[#[trigger] right[i] as int],
    ) == sum_of_gains(ops, docs, right, left, docs[right[i] as int]) by {
        let terms = docs[right[i] as int];
        assert forall|k: int| 0 <= k < terms.len() implies state.move_gain_right@[#[trigger] terms[k] as int]
            == term_gain(ops, docs, right, left, terms[k]) by {
            let t = terms[k];
            assert(docs[right[i] as int][k] < fwd.term_bound());
            lemma_occurrences_of_member(terms, k);
            lemma_degree_of_member(docs, right, i, t);
            assert(state.deg_left@[t as int] == degree(docs, left, t));
            assert(state.deg_right@[t as int] == degree(docs, right, t));
        }
        lemma_table_sum(ops, state.move_gain_right@, docs, right, left, terms);
    }
}

/// Take the terms of document `d` off one degree table and onto another.
fn shift_terms(fwd: &ForwardIndex, d: u32, from: &mut Vec<u32>, to: &mut Vec<u32>)
    requires
        fwd.wf(),
        d < fwd@.len(),
        old(from)@.len() == old(to)@.len(),
        fwd.term_bound() <= old(from)@.len(),
        forall|t: u32| t < old(from)@.len() ==> occurrences(fwd@[d as int], t) <= #[trigger] old(from)@[t as int],
        forall|t: u32|
            t < old(from)@.len() ==> #[trigger] old(from)@[t as int] + old(to)@[t as int] <= u32::MAX,
    ensures
        final(from)@.len() == old(from)@.len(),
        final(to)@.len() == old(to)@.len(),
        forall|t: u32|
            t < old(from)@.len() ==> #[trigger] final(from)@[t as int] == old(from)@[t as int] - occurrences(
                fwd@[d as int],
                t,
            ),
        forall|t: u32|
            t < old(from)@.len() ==> #[trigger] final(to)@[t as int] == old(to)@[t as int] + occurrences(
                fwd@[d as int],
                t,
            ),
{
    let terms = fwd.doc(d);
    for k in 0..terms.len()
        invariant
            fwd.wf(),
            d < fwd@.len(),
            terms@ == fwd@[d as int],
            fwd.term_bound() <= old(from)@.len(),
            from@.len() == old(from)@.len(),
            to@.len() == old(from)@.len(),
            forall|t: u32|
                t < old(from)@.len() ==> occurrences(fwd@[d as int], t) <= #[trigger] old(from)@[t as int],
            forall|t: u32|
                t < old(from)@.len() ==> #[trigger] old(from)@[t as int] + old(to)@[t as int] <= u32::MAX,
            forall|t: u32|
                t < old(from)@.len() ==> #[trigger] from@[t as int] == old(from)@[t as int] - occurrences(
                    terms@.take(k as int),
                    t,
                ),
            forall|t: u32|
                t < old(from)@.len() ==> #[trigger] to@[t as int] == old(to)@[t as int] + occurrences(
                    terms@.take(k as int),
                    t,
                ),
    {
        proof {
            fwd.lemma_bounds();
            assert(fwd@[d as int][k as int] < fwd.term_bound());
            assert(terms@.take(k + 1).drop_last() =~= terms@.take(k as int));
            lemma_occurrences_prefix(terms@, k + 1, terms@[k as int]);
            assert(old(from)@[terms@[k as int] as int] + old(to)@[terms@[k as int] as int] <= u32::MAX);
        }
        let t: usize = terms[k] as usize;
        from[t] = from[t] - 1;
        to[t] = to[t] + 1;
    }
    assert(terms@.take(terms@.len() as int) =~= terms@);
}

/// The documents of `order.take(i)` that stand before `mid`.
spec fn left_part(order: Seq<u32>, mid: int, i: int) -> Seq<u32> {
    if i < mid {
        order.take(i)
    } else {
        order.take(mid)
    }
}

/// The documents of `order.take(i)` that stand at `mid` or after it.
spec fn right_part(order: Seq<u32>, mid: int, i: int) -> Seq<u32> {
    if i < mid {
        Seq::empty()
    } else {
        order.subrange(mid, i)
    }
}

/// Counting one more document adds its occurrences to its side.
proof fn lemma_part_step(fwd: &ForwardIndex, order: Seq<u32>, mid: int, i: int)
    requires
        0 <= mid <= order.len(),
        0 <= i < order.len(),
    ensures
        forall|t: u32| #[trigger]
            degree(fwd@, left_part(order, mid, i + 1), t) == degree(fwd@, left_part(order, mid, i), t)
                + if i < mid {
                occurrences(fwd@[order[i] as int], t)
            } else {
                0
            },
        forall|t: u32| #[trigger]
            degree(fwd@, right_part(order, mid, i + 1), t) == degree(fwd@, right_part(order, mid, i), t)
                + if i < mid {
                0
            } else {
                occurrences(fwd@[order[i] as int], t)
            },
{
    if i < mid {
        assert(left_part(order, mid, i + 1) =~= order.take(i + 1));
        assert(left_part(order, mid, i + 1).drop_last() =~= left_part(order, mid, i));
        assert(right_part(order, mid, i + 1) =~= right_part(order, mid, i));
    } else {
        assert(right_part(order, mid, i + 1).drop_last() =~= right_part(order, mid, i));
        assert(left_part(order, mid, i + 1) =~= left_part(order, mid, i));
    }
}

/// What is counted before document `i`, and document `i` with it, fits the tables.
proof fn lemma_counted_bounded(fwd: &ForwardIndex, order: Seq<u32>, mid: int, i: int, t: u32)
    requires
        fwd.wf(),
        countable(fwd@, order),
        0 <= mid <= order.len(),
        0 <= i < order.len(),
    ensures
        degree(fwd@, left_part(order, mid, i), t) + degree(fwd@, right_part(order, mid, i), t)
            + occurrences(fwd@[order[i] as int], t) <= u32::MAX,
{
    fwd.lemma_bounds();
    let counted = order.take(i);
    assert(counted =~= left_part(order, mid, i) + right_part(order, mid, i));
    lemma_degree_concat(fwd@, left_part(order, mid, i), right_part(order, mid, i), t);
    assert(order.take(i + 1).drop_last() =~= counted);
    assert(order.take(i + 1).last() == order[i]);
    assert(order.take(i + 1) + order.skip(i + 1) =~= order);
    lemma_degree_concat(fwd@, order.take(i + 1), order.skip(i + 1), t);
    assert(degree(fwd@, order, t) <= u32::MAX);
}

/// Counting one more occurrence of `t`, noted if it was on neither side, keeps the notes exact.
proof fn lemma_touched_kept(before: BisectState, after: BisectState, t: u32)
    requires
        before.notes_touched(),
        before.deg_left@.len() == before.deg_right@.len(),
        t < before.deg_left@.len(),
        after.touched@ == if before.deg_left@[t as int] == 0 && before.deg_right@[t as int] == 0 {
            before.touched@.push(t)
        } else {
            before.touched@
        },
        after.deg_left@.len() == before.deg_left@.len(),
        after.deg_right@.len() == before.deg_right@.len(),
        after.deg_left@[t as int] > 0 || after.deg_right@[t as int] > 0,
        forall|u: u32|
            u < before.deg_left@.len() && u != t ==> #[trigger] after.deg_left@[u as int]
                == before.deg_left@[u as int],
        forall|u: u32|
            u < before.deg_left@.len() && u != t ==> #[trigger] after.deg_right@[u as int]
                == before.deg_right@[u as int],
    ensures
        after.notes_touched(),
{
    assert(before.touched@.contains(t) <==> (before.deg_left@[t as int] > 0
        || before.deg_right@[t as int] > 0));
    assert forall|u: u32| u < after.deg_left@.len() implies (#[trigger] after.touched@.contains(u)
        <==> (after.deg_left@[u as int] > 0 || after.deg_right@[u as int] > 0)) by {
        assert(before.touched@.contains(u) <==> (before.deg_left@[u as int] > 0
            || before.deg_right@[u as int] > 0));
        if before.touched@.contains(u) {
            let i = choose|i: int| 0 <= i < before.touched@.len() && before.touched@[i] == u;
            assert(after.touched@[i] == u);
        }
        if u == t {
            if !before.touched@.contains(t) {
                assert(after.touched@[before.touched@.len() as int] == t);
            }
        }
    }
}

/// The touched terms are those that the partition carries, each once.
proof fn lemma_touched_count(state: BisectState, fwd: &ForwardIndex, start: Seq<u32>, order: Seq<u32>, mid: int)
    requires
        state.ready(fwd, order.take(mid), order.skip(mid)),
        0 <= mid <= order.len(),
        order.to_multiset() == start.to_multiset(),
    ensures
        state.touched@.len() == carried_terms(fwd@, start).len(),
{
    let carried = carried_terms(fwd@, start);
    fwd.lemma_bounds();
    assert(order.take(mid) + order.skip(mid) =~= order);
    assert forall|t: u32| state.touched@.to_set().contains(t) <==> carried.contains(t) by {
        lemma_degree_rearranged(fwd@, order, start, t);
        lemma_degree_concat(fwd@, order.take(mid), order.skip(mid), t);
        if state.touched@.contains(t) {
            let i = choose|i: int| 0 <= i < state.touched@.len() && state.touched@[i] == t;
            assert(state.touched@[i] < state.deg_left@.len());
            assert(state.deg_left@[t as int] == degree(fwd@, order.take(mid), t));
            assert(state.deg_right@[t as int] == degree(fwd@, order.skip(mid), t));
        }
        if degree(fwd@, order, t) > 0 {
            assert forall|i: int| 0 <= i < order.len() implies #[trigger] order[i] < fwd@.len() by {
                if i < mid {
                    assert(order.take(mid)[i] < fwd@.len());
                } else {
                    assert(order.skip(mid)[i - mid] < fwd@.len());
                }
            }
            lemma_degree_witness(fwd@, order, t);
            let i = choose|i: int| 0 <= i < order.len() && fwd@[#[trigger] order[i] as int].contains(t);
            let doc = fwd@[order[i] as int];
            let k = choose|k: int| 0 <= k < doc.len() && doc[k] == t;
            assert(fwd@[order[i] as int][k] < fwd.term_bound());
            assert(state.deg_left@[t as int] == degree(fwd@, order.take(mid), t));
            assert(state.deg_right@[t as int] == degree(fwd@, order.skip(mid), t));
        }
    }
    assert(state.touched@.to_set() =~= carried);
    state.touched@.unique_seq_to_set();
}

} // verus!
