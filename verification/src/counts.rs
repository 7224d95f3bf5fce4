//! What a merge counts.
use crate::merge_job::{share, Record, Step};
use crate::term_work::{all_runs, docs_ascend, Kept};
use vstd::prelude::*;

verus! {

/// What there is to count of some terms' postings.
pub struct Tally {
    /// The postings that stay.
    pub postings: nat,
    /// The values of their position runs.
    pub run_values: nat,
    /// The terms whose postings had to be sorted, and the postings of those.
    pub sorted_terms: nat,
    pub sorted_postings: nat,
}

/// Nothing counted.
pub open spec fn no_tally() -> Tally {
    Tally { postings: 0, run_values: 0, sorted_terms: 0, sorted_postings: 0 }
}

impl Tally {
    /// Both together.
    pub open spec fn plus(self, other: Tally) -> Tally {
        Tally {
            postings: self.postings + other.postings,
            run_values: self.run_values + other.run_values,
            sorted_terms: self.sorted_terms + other.sorted_terms,
            sorted_postings: self.sorted_postings + other.sorted_postings,
        }
    }
}

/// What there is to count of one term, of whose postings `kept` stays.
pub open spec fn tally_of(kept: Seq<Kept>) -> Tally {
    Tally {
        postings: kept.len(),
        run_values: all_runs(kept).len(),
        sorted_terms: if docs_ascend(kept) {
            0
        } else {
            1
        },
        sorted_postings: if docs_ascend(kept) {
            0
        } else {
            kept.len()
        },
    }
}

/// What there is to count of some encodings.
pub open spec fn tally<T>(steps: Seq<Step<T>>) -> Tally
    decreases steps.len(),
{
    if steps.len() == 0 {
        no_tally()
    } else {
        tally(steps.drop_last()).plus(tally_of(steps.last().0))
    }
}

/// What there is to count of the terms of `records`.
pub open spec fn tally_all<T>(records: Seq<Record<T>>) -> Tally
    decreases records.len(),
{
    if records.len() == 0 {
        no_tally()
    } else {
        tally_all(records.drop_last()).plus(tally_of(records.last().kept))
    }
}

/// The inputs that the terms of `records` have, all together.
pub open spec fn total_inputs<T>(records: Seq<Record<T>>) -> nat
    decreases records.len(),
{
    if records.len() == 0 {
        0
    } else {
        total_inputs(records.drop_last()) + records.last().term.1.len()
    }
}

/// A count that stops at the most it can hold.
pub open spec fn capped(n: nat) -> u64 {
    if n <= u64::MAX {
        n as u64
    } else {
        u64::MAX
    }
}

/// What one worker has counted.
#[derive(Clone, Copy, Debug)]
pub struct TermCounts {
    pub postings: u64,
    pub run_values: u64,
    pub sorted_terms: u64,
    pub sorted_postings: u64,
}

impl TermCounts {
    /// These are the counts of `t`, each as far as it can be held.
    pub open spec fn count(&self, t: Tally) -> bool {
        &&& self.postings == capped(t.postings)
        &&& self.run_values == capped(t.run_values)
        &&& self.sorted_terms == capped(t.sorted_terms)
        &&& self.sorted_postings == capped(t.sorted_postings)
    }

    /// Nothing counted.
    pub fn new() -> (counts: Self)
        ensures
            counts.count(no_tally()),
    {
        TermCounts { postings: 0, run_values: 0, sorted_terms: 0, sorted_postings: 0 }
    }

    /// Count one term with `postings` postings and `run_values` run values.
    pub fn add_term(&mut self, postings: usize, run_values: usize, sorted: bool)
        ensures
            forall|t: Tally| #[trigger]
                old(self).count(t) ==> final(self).count(
                    t.plus(
                        Tally {
                            postings: postings as nat,
                            run_values: run_values as nat,
                            sorted_terms: if sorted {
                                1
                            } else {
                                0
                            },
                            sorted_postings: if sorted {
                                postings as nat
                            } else {
                                0
                            },
                        },
                    ),
                ),
    {
        self.postings = self.postings.saturating_add(postings as u64);
        self.run_values = self.run_values.saturating_add(run_values as u64);
        if sorted {
            self.sorted_terms = self.sorted_terms.saturating_add(1);
            self.sorted_postings = self.sorted_postings.saturating_add(postings as u64);
        }
    }

    /// Take in what `other` has counted.
    pub fn absorb(&mut self, other: &TermCounts)
        ensures
            final(self).postings == capped((old(self).postings + other.postings) as nat),
            final(self).run_values == capped((old(self).run_values + other.run_values) as nat),
            final(self).sorted_terms == capped((old(self).sorted_terms + other.sorted_terms) as nat),
            final(self).sorted_postings == capped(
                (old(self).sorted_postings + other.sorted_postings) as nat,
            ),
    {
        self.postings = self.postings.saturating_add(other.postings);
        self.run_values = self.run_values.saturating_add(other.run_values);
        self.sorted_terms = self.sorted_terms.saturating_add(other.sorted_terms);
        self.sorted_postings = self.sorted_postings.saturating_add(other.sorted_postings);
    }
}

/// What a merge has counted.
#[derive(Clone, Copy, Debug)]
pub struct MergeCounts {
    /// The postings that were encoded.
    pub postings: u64,
    /// The inputs of every term, deleted terms among them.
    pub term_inputs: u64,
    /// The terms whose postings had to be sorted, and the postings of those.
    pub sorted_terms: u64,
    pub sorted_postings: u64,
    /// The values of the position runs.
    pub run_values: u64,
}

impl MergeCounts {
    /// These are the counts of the terms of `records`, each as far as it can be held.
    pub open spec fn count<T>(&self, records: Seq<Record<T>>) -> bool {
        let t = tally_all(records);
        &&& self.postings == capped(t.postings)
        &&& self.run_values == capped(t.run_values)
        &&& self.sorted_terms == capped(t.sorted_terms)
        &&& self.sorted_postings == capped(t.sorted_postings)
        &&& self.term_inputs == capped(total_inputs(records))
    }
}

/// The counts of two lists of encodings are those of both together.
pub proof fn lemma_tally_both<T>(a: Seq<Step<T>>, b: Seq<Step<T>>)
    ensures
        tally(a + b) == tally(a).plus(tally(b)),
    decreases b.len(),
{
    if b.len() == 0 {
        assert(a + b =~= a);
    } else {
        lemma_tally_both(a, b.drop_last());
        assert((a + b).drop_last() =~= a + b.drop_last());
        assert((a + b).last() == b.last());
    }
}

/// The inputs of two lists of records are those of both together.
pub proof fn lemma_inputs_both<T>(a: Seq<Record<T>>, b: Seq<Record<T>>)
    ensures
        total_inputs(a + b) == total_inputs(a) + total_inputs(b),
    decreases b.len(),
{
    if b.len() == 0 {
        assert(a + b =~= a);
    } else {
        lemma_inputs_both(a, b.drop_last());
        assert((a + b).drop_last() =~= a + b.drop_last());
    }
}

/// The counts of the shares of the first `n` workers, all together.
pub open spec fn tally_shares<T>(records: Seq<Record<T>>, who: Seq<int>, n: int) -> Tally
    decreases n,
{
    if n <= 0 {
        no_tally()
    } else {
        tally_shares(records, who, n - 1).plus(tally(share(records, who, n - 1)))
    }
}

/// One more record adds to the count of the worker who merged it, and to no other.
proof fn lemma_shares_step<T>(records: Seq<Record<T>>, who: Seq<int>, n: int)
    requires
        records.len() > 0,
        who.len() == records.len(),
        records.last().output is None ==> records.last().kept.len() == 0,
    ensures
        tally_shares(records, who, n) == tally_shares(records.drop_last(), who.drop_last(), n).plus(
            if 0 <= who.last() < n {
                tally_of(records.last().kept)
            } else {
                no_tally()
            },
        ),
    decreases n,
{
    if n > 0 {
        lemma_shares_step(records, who, n - 1);
        let fewer = share(records.drop_last(), who.drop_last(), n - 1);
        match records.last().output {
            Some(out) => {
                let more = fewer.push((records.last().kept, out));
                assert(more.drop_last() =~= fewer);
            },
            None => {
                lemma_empty_tally(records.last().kept);
            },
        }
    }
}

/// There is nothing to count where no posting stays.
pub proof fn lemma_empty_tally(kept: Seq<Kept>)
    requires
        kept.len() == 0,
    ensures
        tally_of(kept) == no_tally(),
{
}

/// What the workers count, all together, is what there is to count of the records.
pub proof fn lemma_shares_make_up_all<T>(records: Seq<Record<T>>, who: Seq<int>, n: int)
    requires
        who.len() == records.len(),
        forall|k: int| 0 <= k < who.len() ==> 0 <= #[trigger] who[k] < n,
        forall|k: int|
            0 <= k < records.len() ==> ((#[trigger] records[k]).output is None ==> records[k].kept.len() == 0),
    ensures
        tally_shares(records, who, n) == tally_all(records),
    decreases records.len(),
{
    if records.len() == 0 {
        lemma_no_shares(records, who, n);
    } else {
        let fewer = records.drop_last();
        let who_fewer = who.drop_last();
        assert forall|k: int| 0 <= k < who_fewer.len() implies 0 <= #[trigger] who_fewer[k] < n by {
            assert(who_fewer[k] == who[k]);
        }
        assert forall|k: int| 0 <= k < fewer.len() && (#[trigger] fewer[k]).output is None implies fewer[k].kept.len()
            == 0 by {
            assert(fewer[k] == records[k]);
        }
        lemma_shares_make_up_all(fewer, who_fewer, n);
        assert(records[records.len() - 1] == records.last());
        assert(who[who.len() - 1] == who.last());
        lemma_shares_step(records, who, n);
    }
}

/// Workers who merged nothing count nothing.
proof fn lemma_no_shares<T>(records: Seq<Record<T>>, who: Seq<int>, n: int)
    requires
        records.len() == 0,
    ensures
        tally_shares(records, who, n) == no_tally(),
    decreases n,
{
    if n > 0 {
        lemma_no_shares(records, who, n - 1);
    }
}

} // verus!
