//! What holds of the terms of a batch once they were merged.
use crate::batch::{Batch, PendingTerm};
use crate::counts::{no_tally, tally, tally_of, Tally};
use crate::dictionary::{FtsError, FtsReader, Posting};
use crate::errors::BuildError;
use crate::merge_job::{outputs, reads_postings, share, steps_of, terms_of, written, Record, TermRuns};
use crate::sorted_merge::{grew, outputs_are, states_of, BatchWork, Task, Worker};
use crate::term_merge::MergedTerm;
use crate::term_work::{placeable, Kept};
use vstd::prelude::*;
use vstd::utf8::valid_utf8;

verus! {

/// The states of workers are each worker's, in turn.
pub proof fn workers_have_their_states<S>(workers: Seq<Worker<S>>)
    ensures
        states_of(workers) == workers.map_values(|w: Worker<S>| w.1),
{
    assert(states_of(workers) =~= workers.map_values(|w: Worker<S>| w.1));
}

/// What records came to is the output of each, in turn.
pub proof fn records_come_to_their_outputs<T>(records: Seq<Record<T>>, merged: Seq<Option<T>>)
    ensures
        outputs_are(records, merged) <==> merged == records.map_values(|r: Record<T>| r.output),
{
    let outs = records.map_values(|r: Record<T>| r.output);
    if outputs_are(records, merged) {
        assert(merged =~= outs);
    }
    if merged == outs {
        assert forall|k: int| 0 <= k < records.len() implies (#[trigger] records[k]).output == merged[k] by {
            assert(outs[k] == records[k].output);
        }
    }
}

impl<'a, R: FtsReader + Sync, S: Send, N: Fn() -> S + Sync, E: Sync> BatchWork<'a, R, S, N, E> {
    /// A term that was merged keeps what its inputs hand over of documents that stay. Where that is
    /// nothing it has no output, and the state is as it was; otherwise its output and the state are what
    /// one encoding made of it. The worker counts it.
    pub proof fn a_merged_term_is_one_encoding<T>(
        &self,
        before: Worker<S>,
        term: MergedTerm,
        output: Option<T>,
        after: Worker<S>,
    ) -> (kept: Seq<Kept>) where E: Fn(S, &[(u32, u32)], TermRuns<'_>) -> (S, Result<T, BuildError>)
        requires
            self.term_ended(before, term, Ok(output), after),
        ensures
            self.job().stays(term, kept),
            output is None <==> kept.len() == 0,
            output matches Some(out) ==> self.job().encodes(before.1, kept, after.1, Ok(out)),
            output is None ==> after.1 == before.1,
            forall|t: Tally| #[trigger] before.0.counted(t) ==> after.0.counted(t.plus(tally_of(kept))),
    {
        let record = choose|record: Record<T>|
            record.term == term && record.output == output && #[trigger] self.merged_as(before, record, after);
        record.kept
    }

    /// A term that failed did so at a read, and then the state is as it was and nothing is counted, or at
    /// its one encoding, which made the state what it is.
    pub proof fn a_failed_term_is_one_call<T>(
        &self,
        before: Worker<S>,
        term: MergedTerm,
        error: BuildError,
        after: Worker<S>,
    ) -> (kept: Option<Seq<Kept>>) where E: Fn(S, &[(u32, u32)], TermRuns<'_>) -> (S, Result<T, BuildError>)
        requires
            self.term_ended::<T>(before, term, Err(error), after),
        ensures
            match kept {
                None => {
                    &&& self.job().read_fails(term, error)
                    &&& after.1 == before.1
                    &&& forall|t: Tally| #[trigger] before.0.counted(t) ==> after.0.counted(t.plus(no_tally()))
                },
                Some(kept) => {
                    &&& self.job().stays(term, kept)
                    &&& kept.len() > 0
                    &&& self.job().encodes::<T>(before.1, kept, after.1, Err(error))
                    &&& forall|t: Tally| #[trigger]
                        before.0.counted(t) ==> after.0.counted(t.plus(tally_of(kept)))
                },
            },
    {
        if exists|kept: Seq<Kept>| #[trigger]
            self.job().stays(term, kept) && self.encoding_failed::<T>(before, kept, error, after) {
            let kept = choose|kept: Seq<Kept>| #[trigger]
                self.job().stays(term, kept) && self.encoding_failed::<T>(before, kept, error, after);
            Some(kept)
        } else {
            None
        }
    }

    /// Terms that a worker merged have each an outcome of its own, in turn, and the worker's state goes
    /// through their encodings.
    pub proof fn a_chunk_is_merged_term_by_term<T>(
        &self,
        batch: &Batch,
        chunk: Seq<PendingTerm>,
        before: Worker<S>,
        merged: Seq<Option<T>>,
        after: Worker<S>,
    ) -> (records: Seq<Record<T>>) where E: Fn(S, &[(u32, u32)], TermRuns<'_>) -> (S, Result<T, BuildError>)
        requires
            self.chunk_merged(batch, chunk, before, merged, after),
        ensures
            records.len() == chunk.len(),
            merged.len() == chunk.len(),
            forall|k: int|
                0 <= k < chunk.len() ==> (#[trigger] records[k]).term == batch.pending_view(chunk[k])
                    && records[k].output == merged[k] && self.job().is_record(records[k]),
            self.job().leads(before.1, steps_of(records), after.1),
            forall|t: Tally| #[trigger]
                before.0.counted(t) ==> after.0.counted(t.plus(tally(steps_of(records)))),
    {
        choose|records: Seq<Record<T>>|
            self.records_of(batch, chunk, records) && records.len() == chunk.len() && outputs_are(
                records,
                merged,
            ) && #[trigger] self.progressed(before, records, after)
    }

    /// Terms of which one failed were merged up to that one, in turn, and none after it.
    pub proof fn a_chunk_is_merged_up_to_a_failure<T>(
        &self,
        batch: &Batch,
        chunk: Seq<PendingTerm>,
        before: Worker<S>,
        error: BuildError,
        after: Worker<S>,
    ) -> (r: (Seq<Record<T>>, Worker<S>)) where
        E: Fn(S, &[(u32, u32)], TermRuns<'_>) -> (S, Result<T, BuildError>),

        requires
            self.chunk_failed::<T>(batch, chunk, before, error, after),
        ensures
            ({
                let (records, at) = r;
                &&& records.len() < chunk.len()
                &&& forall|k: int|
                    0 <= k < records.len() ==> (#[trigger] records[k]).term == batch.pending_view(chunk[k])
                        && self.job().is_record(records[k])
                &&& self.job().leads(before.1, steps_of(records), at.1)
                &&& self.term_ended::<T>(
                    at,
                    batch.pending_view(chunk[records.len() as int]),
                    Err(error),
                    after,
                )
                &&& self.job().fails::<T>(batch.pending_view(chunk[records.len() as int]), error)
            }),
    {
        choose|records: Seq<Record<T>>, at: Worker<S>|
            self.records_of(batch, chunk, records) && records.len() < chunk.len()
                && #[trigger] self.progressed(before, records, at) && self.term_failed::<T>(
                at,
                batch.pending_view(chunk[records.len() as int]),
                error,
                after,
            ) && self.job().fails::<T>(batch.pending_view(chunk[records.len() as int]), error)
    }

    /// A batch that was merged has an outcome for each term, in turn. Each term is one worker's, the
    /// workers that there were come first, and new ones are made only up to `most`.
    pub proof fn a_batch_is_merged_term_by_term<T>(
        &self,
        before: Seq<Worker<S>>,
        terms: Seq<MergedTerm>,
        most: nat,
        merged: Seq<Option<T>>,
        after: Seq<Worker<S>>,
    ) -> (r: (Seq<Record<T>>, Seq<int>, Seq<Worker<S>>)) where
        E: Fn(S, &[(u32, u32)], TermRuns<'_>) -> (S, Result<T, BuildError>),

        requires
            self.batch_merged(before, terms, most, merged, after),
        ensures
            ({
                let (records, who, first) = r;
                &&& merged.len() == terms.len()
                &&& records.len() == terms.len()
                &&& forall|k: int|
                    0 <= k < terms.len() ==> (#[trigger] records[k]).term == terms[k] && records[k].output
                        == merged[k] && self.job().is_record(records[k])
                &&& after.len() == first.len()
                &&& after.len() == before.len() || before.len() < after.len() <= most
                &&& forall|w: int| 0 <= w < before.len() ==> #[trigger] first[w] == before[w]
                &&& forall|w: int|
                    before.len() <= w < first.len() ==> self.job().new_state.ensures((), (#[trigger] first[w]).1)
                        && first[w].0.counted(no_tally())
                &&& who.len() == terms.len()
                &&& forall|k: int| 0 <= k < who.len() ==> 0 <= #[trigger] who[k] < after.len()
                &&& forall|w: int|
                    0 <= w < after.len() ==> self.job().leads(
                        first[w].1,
                        share(records, who, w),
                        (#[trigger] after[w]).1,
                    )
                &&& forall|w: int, t: Tally|
                    0 <= w < after.len() && #[trigger] first[w].0.counted(t) ==> after[w].0.counted(
                        t.plus(tally(share(records, who, w))),
                    )
            }),
    {
        let (records, who, first) = choose|records: Seq<Record<T>>, who: Seq<int>, first: Seq<Worker<S>>|
            self.grown(before, first, most) && terms_of(records) == terms && outputs_are(records, merged)
                && #[trigger] self.work_done(first, records, who, after);
        self.lemma_work_done(first, records, who, after);
        assert forall|k: int| 0 <= k < terms.len() implies (#[trigger] records[k]).term == terms[k]
            && records[k].output == merged[k] && self.job().is_record(records[k]) by {
            assert(terms_of(records)[k] == records[k].term);
        }
        (records, who, first)
    }

    /// What work that was done comes to, worker by worker.
    proof fn lemma_work_done<T>(
        &self,
        first: Seq<Worker<S>>,
        records: Seq<Record<T>>,
        who: Seq<int>,
        after: Seq<Worker<S>>,
    ) where E: Fn(S, &[(u32, u32)], TermRuns<'_>) -> (S, Result<T, BuildError>)
        requires
            self.work_done(first, records, who, after),
        ensures
            after.len() == first.len(),
            who.len() == records.len(),
            forall|k: int| 0 <= k < records.len() ==> self.job().is_record(#[trigger] records[k]),
            forall|k: int| 0 <= k < who.len() ==> 0 <= #[trigger] who[k] < after.len(),
            forall|w: int|
                0 <= w < after.len() ==> self.job().leads(
                    first[w].1,
                    share(records, who, w),
                    (#[trigger] after[w]).1,
                ),
            forall|w: int, t: Tally|
                0 <= w < after.len() && #[trigger] first[w].0.counted(t) ==> after[w].0.counted(
                    t.plus(tally(share(records, who, w))),
                ),
    {
        assert forall|w: int| 0 <= w < after.len() implies self.job().leads(
            first[w].1,
            share(records, who, w),
            (#[trigger] after[w]).1,
        ) by {
            assert(self.job().leads(states_of(first)[w], share(records, who, w), states_of(after)[w]));
        }
        assert forall|w: int, t: Tally|
            0 <= w < after.len() && #[trigger] first[w].0.counted(t) implies after[w].0.counted(
            t.plus(tally(share(records, who, w))),
        ) by {
            assert(grew(first[w].0, after[w].0, tally(share(records, who, w))));
        }
    }

    /// A batch that was written was merged term by term, every term is text, and the outputs that there
    /// are were written in turn.
    pub proof fn a_batch_is_written_term_by_term<T, W, F: Fn(W, &str, T) -> (W, Result<(), BuildError>)>(
        &self,
        before: Seq<Worker<S>>,
        terms: Seq<MergedTerm>,
        most: nat,
        after: Seq<Worker<S>>,
        write: F,
        from: W,
        to: W,
    ) -> (r: (Seq<Record<T>>, Seq<int>, Seq<Worker<S>>)) where
        E: Fn(S, &[(u32, u32)], TermRuns<'_>) -> (S, Result<T, BuildError>),

        requires
            self.batch_written::<T, W, F>(before, terms, most, after, write, from, to),
        ensures
            ({
                let (records, who, first) = r;
                &&& records.len() == terms.len()
                &&& forall|k: int|
                    0 <= k < terms.len() ==> (#[trigger] records[k]).term == terms[k] && valid_utf8(terms[k].0)
                        && self.job().is_record(records[k])
                &&& written(write, outputs(records), from, to)
                &&& after.len() == first.len()
                &&& after.len() == before.len() || before.len() < after.len() <= most
                &&& forall|w: int| 0 <= w < before.len() ==> #[trigger] first[w] == before[w]
                &&& forall|w: int|
                    before.len() <= w < first.len() ==> self.job().new_state.ensures((), (#[trigger] first[w]).1)
                        && first[w].0.counted(no_tally())
                &&& who.len() == terms.len()
                &&& forall|k: int| 0 <= k < who.len() ==> 0 <= #[trigger] who[k] < after.len()
                &&& forall|w: int|
                    0 <= w < after.len() ==> self.job().leads(
                        first[w].1,
                        share(records, who, w),
                        (#[trigger] after[w]).1,
                    )
                &&& forall|w: int, t: Tally|
                    0 <= w < after.len() && #[trigger] first[w].0.counted(t) ==> after[w].0.counted(
                        t.plus(tally(share(records, who, w))),
                    )
            }),
    {
        let (records, who, first) = choose|records: Seq<Record<T>>, who: Seq<int>, first: Seq<Worker<S>>|
            self.grown(before, first, most) && terms_of(records) == terms && self.job().wrote(
                records,
                write,
                from,
                to,
            ) && #[trigger] self.work_done(first, records, who, after);
        self.lemma_work_done(first, records, who, after);
        assert forall|k: int| 0 <= k < terms.len() implies (#[trigger] records[k]).term == terms[k] && valid_utf8(
            terms[k].0,
        ) && self.job().is_record(records[k]) by {
            assert(terms_of(records)[k] == records[k].term);
        }
        (records, who, first)
    }

    /// A term can be taken on where its inputs are ones that there are, and whatever they hand over for it
    /// has documents that the input's remap has an entry for, and positions that go up.
    pub proof fn a_term_of_sorted_postings_can_be_taken_on(&self, term: MergedTerm)
        requires
            forall|k: int| 0 <= k < term.1.len() ==> (#[trigger] term.1[k]).0 < self.job().inputs.len(),
            forall|k: int, list: Vec<Posting>, t: &[u8]|
                0 <= k < term.1.len() && t@ == term.0 && #[trigger] call_ensures(
                    R::postings_in,
                    (
                        &self.job().inputs[term.1[k].0 as int].fts->0,
                        self.job().column_id,
                        t,
                        (#[trigger] term.1[k]).1,
                    ),
                    Ok::<Vec<Posting>, FtsError>(list),
                ) ==> {
                    &&& forall|p: int|
                        0 <= p < list@.len() ==> (#[trigger] list@[p]).doc < self.job().inputs[term.1[k].0 as int].remap@.len()
                    &&& forall|p: int, a: int, b: int|
                        0 <= p < list@.len() && 0 <= a < b < list@[p].positions@.len()
                            ==> #[trigger] list@[p].positions@[a] < #[trigger] list@[p].positions@[b]
                },
        ensures
            self.can_take(term),
    {
        let job = self.job();
        assert forall|k: int, list: Vec<Posting>|
            0 <= k < term.1.len() && #[trigger] reads_postings(
                job.fts(term.1[k].0 as int),
                job.column_id,
                term.0,
                term.1[k].1,
                Ok(list),
            ) implies placeable(list@, job.inputs[term.1[k].0 as int].remap@) by {
            let t = choose|t: &[u8]|
                t@ == term.0 && #[trigger] call_ensures(
                    R::postings_in,
                    (job.fts(term.1[k].0 as int), job.column_id, t, term.1[k].1),
                    Ok::<Vec<Posting>, FtsError>(list),
                );
            assert(t@ == term.0 && call_ensures(
                R::postings_in,
                (&job.inputs[term.1[k].0 as int].fts->0, job.column_id, t, term.1[k].1),
                Ok::<Vec<Posting>, FtsError>(list),
            ));
        }
    }

    /// A batch can be taken on where each of its terms can, and workers can take it on where each has a
    /// state of the merge's.
    pub proof fn a_batch_can_be_taken_on_where_its_terms_can<T>(&self, batch: &Batch, workers: Seq<Worker<S>>) where
        E: Fn(S, &[(u32, u32)], TermRuns<'_>) -> (S, Result<T, BuildError>),

        ensures
            (forall|k: int| 0 <= k < batch@.len() ==> self.can_take(#[trigger] batch@[k])) ==> self.can_take_all(
                batch,
            ),
            (forall|w: int| 0 <= w < workers.len() ==> self.job().reachable::<T>((#[trigger] workers[w]).1))
                ==> self.all_reachable::<T>(workers),
    {
    }

    /// A task merges the terms from its start to its end.
    pub proof fn a_task_merges_its_run_of_terms<T>(
        &self,
        batch: &Batch,
        terms: Seq<PendingTerm>,
        task: Task<S>,
        after: Worker<S>,
        out: Result<Vec<Option<T>>, BuildError>,
    ) where E: Fn(S, &[(u32, u32)], TermRuns<'_>) -> (S, Result<T, BuildError>)
        requires
            self.task_done(batch, terms, task, after, out),
        ensures
            out matches Ok(merged) ==> self.chunk_merged(
                batch,
                terms.subrange(task.start as int, task.end as int),
                task.worker,
                merged@,
                after,
            ),
            out matches Err(e) ==> self.chunk_failed::<T>(
                batch,
                terms.subrange(task.start as int, task.end as int),
                task.worker,
                e,
                after,
            ),
    {
    }
}

} // verus!
