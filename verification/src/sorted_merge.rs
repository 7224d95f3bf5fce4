//! Merge the full-text indexes of already-built superfiles term by term.
//!
//! Every input's dictionary is in term order, so a k-way merge over the inputs' dictionaries
//! yields the output terms in final order, with no corpus-sized accumulator; peak memory is one
//! term's postings across all inputs. When the remaps keep arrival order, a term's postings joined
//! in input order are already sorted by output doc id. When the merge chooses a doc order of its
//! own, or an input stores one, they are not, and that one term's postings are sorted before they
//! are emitted.
//!
//! The walk over the dictionaries and the writes stay in term order on one thread. Between them,
//! each batch of terms is read, sorted and encoded in parallel: a term's work depends on nothing
//! outside the term.
use crate::batch::{lemma_fewer_tasks, most_tasks, tasks_in, Batch, BatchLimits, PendingTerm};
use crate::counts::{
    capped, lemma_empty_tally, lemma_inputs_both, lemma_shares_make_up_all, lemma_tally_both, no_tally,
    tally, tally_of, tally_shares, total_inputs, MergeCounts, Tally, TermCounts,
};
use crate::dictionary::{ascending_terms, Entry, FstValue, FtsReader, Posting};
use crate::errors::{is_non_utf8_error, is_read_error, non_utf8_error, read_error, BuildError};
use crate::merge_job::{
    all_indexed, by_one, job, lemma_share_both, lemma_share_none, lemma_share_of_one,
    lemma_written_none, lemma_written_push, outputs, readers_of, reads_postings, share, steps_of,
    terms_of, writes, Job, Record, SortedInput, Step, TermRuns,
};
use crate::merge_laws::{all_ascending, merge_holds_only_terms};
use crate::parallel::{par_map_owned, text_of};
use crate::term_merge::{
    after_terms, at_first, begins_merge, entries_left, exhausted, first_terms, is_merge,
    lemma_after_both, lemma_begins_both, lemma_begins_fewer, within, MergedTerm,
};
use crate::term_walk::{
    at_hand, dictionary_of, goes_on, inputs_below, inputs_of, lemma_entries_after, read_failed,
    within_limits, TermWalk,
};
use crate::term_work::{joined, placeable, FtsDocId, Kept, TermWork};
use vstd::prelude::*;
use vstd::utf8::valid_utf8;

verus! {

/// A worker: its buffers and its state.
pub type Worker<S> = (TermWork, S);

/// The states of `workers`.
pub open spec fn states_of<S>(workers: Seq<Worker<S>>) -> Seq<S> {
    Seq::new(workers.len(), |w: int| workers[w].1)
}

/// Between `before` and `after`, what there is to count of `t` was counted.
pub open spec fn grew(before: TermWork, after: TermWork, t: Tally) -> bool {
    forall|s: Tally| #[trigger] before.counted(s) ==> after.counted(s.plus(t))
}

/// What every batch of one column's merge shares.
pub struct BatchWork<'a, R, S, N, E> {
    readers: &'a Vec<&'a R>,
    inputs: &'a [SortedInput<R>],
    column_id: u32,
    new_state: &'a N,
    encode: &'a E,
    /// The states that the merge was given.
    given: Ghost<Seq<S>>,
}

/// What one parallel task takes: a worker, and which of the batch's terms it is to merge.
pub struct Task<S> {
    pub worker: Worker<S>,
    pub start: usize,
    pub end: usize,
}

impl<'a, R: FtsReader + Sync, S: Send, N: Fn() -> S + Sync, E: Sync> BatchWork<'a, R, S, N, E> {
    /// The merge that this works on.
    pub closed spec fn job(&self) -> Job<R, S, N, E> {
        job(self.inputs@, self.column_id, self.given@, *self.new_state, *self.encode)
    }

    /// Every reader is that of its input.
    pub closed spec fn wf<T>(&self) -> bool where
        E: Fn(S, &[(u32, u32)], TermRuns<'_>) -> (S, Result<T, BuildError>),
     {
        &&& all_indexed(self.inputs@)
        &&& self.readers@.len() == self.inputs@.len()
        &&& forall|i: int|
            0 <= i < self.inputs@.len() ==> #[trigger] self.readers@[i] == self.job().fts(i)
        &&& self.job().callable::<T>()
    }

    /// `term` has inputs that there are, and what is read of it can be placed.
    pub open spec fn can_take(&self, term: MergedTerm) -> bool {
        inputs_below(term.1, self.job().inputs.len()) && self.job().placed(term)
    }

    /// Every worker's state is one of the merge's.
    pub open spec fn all_reachable<T>(&self, workers: Seq<Worker<S>>) -> bool where
        E: Fn(S, &[(u32, u32)], TermRuns<'_>) -> (S, Result<T, BuildError>),
     {
        forall|w: int| 0 <= w < workers.len() ==> self.job().reachable::<T>((#[trigger] workers[w]).1)
    }

    /// Work on the merge of `column_id` across `inputs`, whose indexes are `readers`. `states` are
    /// the states that it was given.
    pub fn new<T>(
        readers: &'a Vec<&'a R>,
        inputs: &'a [SortedInput<R>],
        column_id: u32,
        states: &Vec<S>,
        new_state: &'a N,
        encode: &'a E,
    ) -> (work: Self) where E: Fn(S, &[(u32, u32)], TermRuns<'_>) -> (S, Result<T, BuildError>)
        requires
            readers@ == readers_of(inputs@),
            all_indexed(inputs@),
            job(inputs@, column_id, states@, *new_state, *encode).callable::<T>(),
        ensures
            work.wf::<T>(),
            work.job() == job(inputs@, column_id, states@, *new_state, *encode),
    {
        BatchWork { readers, inputs, column_id, new_state, encode, given: Ghost(states@) }
    }

    /// `record` is how `term` was merged on a worker, from `before` to `after`: one encoding where
    /// a posting stays, and the state as it was where none does.
    pub open spec fn merged_as<T>(&self, before: Worker<S>, record: Record<T>, after: Worker<S>) -> bool where
        E: Fn(S, &[(u32, u32)], TermRuns<'_>) -> (S, Result<T, BuildError>),
     {
        &&& self.job().is_record(record)
        &&& match record.output {
            Some(out) => self.job().encodes(before.1, record.kept, after.1, Ok(out)),
            None => after.1 == before.1,
        }
        &&& grew(before.0, after.0, tally_of(record.kept))
    }

    /// `term` was merged to `output` on a worker, from `before` to `after`.
    pub open spec fn term_merged<T>(
        &self,
        before: Worker<S>,
        term: MergedTerm,
        output: Option<T>,
        after: Worker<S>,
    ) -> bool where E: Fn(S, &[(u32, u32)], TermRuns<'_>) -> (S, Result<T, BuildError>) {
        exists|record: Record<T>|
            record.term == term && record.output == output && #[trigger] self.merged_as(
                before,
                record,
                after,
            )
    }

    /// `term` failed with `error` on a worker, from `before` to `after`: a read failed, and nothing
    /// was encoded, or the one encoding did.
    pub open spec fn term_failed<T>(
        &self,
        before: Worker<S>,
        term: MergedTerm,
        error: BuildError,
        after: Worker<S>,
    ) -> bool where E: Fn(S, &[(u32, u32)], TermRuns<'_>) -> (S, Result<T, BuildError>) {
        ||| self.job().read_fails(term, error) && after.1 == before.1 && grew(
            before.0,
            after.0,
            no_tally(),
        )
        ||| exists|kept: Seq<Kept>| #[trigger]
            self.job().stays(term, kept) && self.encoding_failed::<T>(before, kept, error, after)
    }

    /// The one encoding of `kept` failed with `error` on a worker, from `before` to `after`.
    pub open spec fn encoding_failed<T>(
        &self,
        before: Worker<S>,
        kept: Seq<Kept>,
        error: BuildError,
        after: Worker<S>,
    ) -> bool where E: Fn(S, &[(u32, u32)], TermRuns<'_>) -> (S, Result<T, BuildError>) {
        &&& kept.len() > 0
        &&& self.job().encodes::<T>(before.1, kept, after.1, Err(error))
        &&& grew(before.0, after.0, tally_of(kept))
    }

    /// Merging `term` on a worker ended in `result`, and took the worker from `before` to `after`.
    pub open spec fn term_ended<T>(
        &self,
        before: Worker<S>,
        term: MergedTerm,
        result: Result<Option<T>, BuildError>,
        after: Worker<S>,
    ) -> bool where E: Fn(S, &[(u32, u32)], TermRuns<'_>) -> (S, Result<T, BuildError>) {
        match result {
            Ok(output) => self.term_merged(before, term, output, after),
            Err(e) => self.term_failed::<T>(before, term, e, after),
        }
    }

    /// Read one term's postings from its inputs, remapped to output doc ids, sort them if they
    /// arrive out of order, and encode them. `None` when every posting was deleted.
    pub fn merge_term<T>(
        &self,
        term: &[u8],
        term_inputs: &[(usize, FstValue)],
        work: &mut TermWork,
        state: S,
    ) -> (r: (S, Result<Option<T>, BuildError>)) where
        E: Fn(S, &[(u32, u32)], TermRuns<'_>) -> (S, Result<T, BuildError>),

        requires
            self.wf::<T>(),
            self.job().reachable::<T>(state),
            self.can_take((term@, term_inputs@)),
        ensures
            self.term_ended((*old(work), state), (term@, term_inputs@), r.1, (*final(work), r.0)),
            r.1 matches Ok(None) ==> r.0 == state,
            r.1 matches Err(e) ==> self.job().fails::<T>((term@, term_inputs@), e),
    {
        let ghost job = self.job();
        let ghost merging: MergedTerm = (term@, term_inputs@);
        let ghost mut lists: Seq<Vec<Posting>> = Seq::empty();
        work.clear();
        for j in 0..term_inputs.len()
            invariant
                self.wf::<T>(),
                job == self.job(),
                merging == (term@, term_inputs@),
                inputs_below(term_inputs@, job.inputs.len()),
                job.placed(merging),
                lists.len() == j,
                forall|k: int|
                    0 <= k < j ==> reads_postings(
                        job.fts(term_inputs@[k].0 as int),
                        job.column_id,
                        term@,
                        term_inputs@[k].1,
                        Ok(#[trigger] lists[k]),
                    ),
                work.holds(joined(term_inputs@, lists, job.remaps(), j as int)),
                forall|t: Tally| #[trigger] old(work).counted(t) ==> work.counted(t),
        {
            let (i, value) = term_inputs[j];
            assert(term_inputs@[j as int].0 < job.inputs.len());
            assert(job.inputs[i as int].fts is Some);
            match self.readers[i].postings_in(self.column_id, term, value) {
                Ok(list) => {
                    assert(reads_postings(
                        job.fts(merging.1[j as int].0 as int),
                        job.column_id,
                        merging.0,
                        merging.1[j as int].1,
                        Ok(list),
                    ));
                    work.gather(&list, &self.inputs[i].remap);
                    proof {
                        lemma_joined_push(term_inputs@, lists, list, job.remaps(), j as int);
                        lists = lists.push(list);
                    }
                },
                Err(e) => {
                    assert(reads_postings(job.fts(i as int), job.column_id, term@, value, Err(e)));
                    let error = read_error(e);
                    proof {
                        assert(is_read_error(e, error));
                        assert(merging.1[j as int] == (i, value));
                        assert forall|k: int| 0 <= k < j implies #[trigger] job.can_read(merging, k) by {
                            assert(job.reads(merging, k, Ok(lists[k])));
                        }
                        assert(job.read_fails_at(merging, j as int, e));
                        assert(job.read_fails(merging, error));
                        lemma_grew_nothing(*old(work), *work);
                    }
                    return (state, Err(error));
                },
            }
        }
        let ghost kept = job.kept(merging, lists);
        assert(job.lists_read(merging, lists));
        assert(job.stays(merging, kept));
        if work.is_empty() {
            proof {
                lemma_empty_tally(kept);
                lemma_grew_nothing(*old(work), *work);
                let record = Record { term: merging, kept, output: None::<T> };
                assert(self.merged_as((*old(work), state), record, (*work, state)));
                assert(self.term_merged((*old(work), state), merging, None::<T>, (*work, state)));
            }
            return (state, Ok(None));
        }
        let ghost gathered = *work;
        let (pairs, starts, values) = work.arrange();
        let runs = TermRuns::Values { values, starts };
        let ghost before = state;
        let encode = self.encode;
        assert(job.callable::<T>() && job.encode == *encode);
        let r = encode(state, pairs, runs);
        proof {
            assert(job.encodes(before, kept, r.0, r.1));
            assert forall|s: Tally| #[trigger] old(work).counted(s) implies work.counted(
                s.plus(tally_of(kept)),
            ) by {
                assert(gathered.holds(kept) && gathered.counted(s));
            }
        }
        let (after, encoded) = r;
        match encoded {
            Ok(output) => {
                proof {
                    assert(job.encodes(before, kept, after, Ok(output)));
                    assert(job.encodes_to(kept, output));
                    assert(job.comes_out(kept, Some(output)));
                    let record = Record { term: merging, kept, output: Some(output) };
                    assert(self.merged_as((*old(work), before), record, (*work, after)));
                    assert(self.term_merged(
                        (*old(work), before),
                        merging,
                        Some(output),
                        (*work, after),
                    ));
                }
                (after, Ok(Some(output)))
            },
            Err(e) => {
                proof {
                    assert(job.encodes::<T>(before, kept, after, Err(e)));
                    assert(job.encode_fails::<T>(merging, e));
                    assert(self.encoding_failed::<T>(
                        (*old(work), before),
                        kept,
                        e,
                        (*work, after),
                    ));
                    assert(self.term_failed::<T>((*old(work), before), merging, e, (*work, after)));
                }
                (after, Err(e))
            },
        }
    }

    /// Every term of `chunk` is one of `batch` that can be taken on.
    pub open spec fn can_merge(&self, batch: &Batch, chunk: Seq<PendingTerm>) -> bool {
        forall|k: int|
            0 <= k < chunk.len() ==> batch.holds(#[trigger] chunk[k]) && self.can_take(
                batch.pending_view(chunk[k]),
            )
    }

    /// Every term of `batch` can be taken on.
    pub open spec fn can_take_all(&self, batch: &Batch) -> bool {
        forall|k: int| 0 <= k < batch@.len() ==> self.can_take(#[trigger] batch@[k])
    }

    /// A worker merged `records`, each term in one step, from `before` to `after`.
    pub open spec fn progressed<T>(
        &self,
        before: Worker<S>,
        records: Seq<Record<T>>,
        after: Worker<S>,
    ) -> bool where E: Fn(S, &[(u32, u32)], TermRuns<'_>) -> (S, Result<T, BuildError>) {
        &&& forall|k: int| 0 <= k < records.len() ==> self.job().is_record(#[trigger] records[k])
        &&& self.job().leads(before.1, steps_of(records), after.1)
        &&& grew(before.0, after.0, tally(steps_of(records)))
    }

    /// `records` are of the first terms of `chunk`.
    pub open spec fn records_of<T>(
        &self,
        batch: &Batch,
        chunk: Seq<PendingTerm>,
        records: Seq<Record<T>>,
    ) -> bool {
        &&& records.len() <= chunk.len()
        &&& forall|k: int|
            0 <= k < records.len() ==> (#[trigger] records[k]).term == batch.pending_view(chunk[k])
    }

    /// On a worker, from `before` to `after`, every term of `chunk` was merged, in turn, to
    /// `merged`.
    pub open spec fn chunk_merged<T>(
        &self,
        batch: &Batch,
        chunk: Seq<PendingTerm>,
        before: Worker<S>,
        merged: Seq<Option<T>>,
        after: Worker<S>,
    ) -> bool where E: Fn(S, &[(u32, u32)], TermRuns<'_>) -> (S, Result<T, BuildError>) {
        exists|records: Seq<Record<T>>|
            self.records_of(batch, chunk, records) && records.len() == chunk.len() && outputs_are(
                records,
                merged,
            ) && #[trigger] self.progressed(before, records, after)
    }

    /// On a worker, from `before` to `after`, the terms of `chunk` were merged up to one that failed
    /// with `error`, and none after it.
    pub open spec fn chunk_failed<T>(
        &self,
        batch: &Batch,
        chunk: Seq<PendingTerm>,
        before: Worker<S>,
        error: BuildError,
        after: Worker<S>,
    ) -> bool where E: Fn(S, &[(u32, u32)], TermRuns<'_>) -> (S, Result<T, BuildError>) {
        exists|records: Seq<Record<T>>, at: Worker<S>|
            self.records_of(batch, chunk, records) && records.len() < chunk.len()
                && #[trigger] self.progressed(before, records, at) && self.term_failed::<T>(
                at,
                batch.pending_view(chunk[records.len() as int]),
                error,
                after,
            ) && self.job().fails::<T>(batch.pending_view(chunk[records.len() as int]), error)
    }

    /// Merge some consecutive terms of a batch on one worker, up to the first that fails.
    pub fn merge_chunk<T>(
        &self,
        worker: Worker<S>,
        batch: &Batch,
        chunk: &[PendingTerm],
    ) -> (r: (Worker<S>, Result<Vec<Option<T>>, BuildError>)) where
        E: Fn(S, &[(u32, u32)], TermRuns<'_>) -> (S, Result<T, BuildError>),

        requires
            self.wf::<T>(),
            self.job().reachable::<T>(worker.1),
            self.can_merge(batch, chunk@),
        ensures
            r.1 matches Ok(merged) ==> self.chunk_merged(batch, chunk@, worker, merged@, r.0),
            r.1 matches Err(e) ==> self.chunk_failed::<T>(batch, chunk@, worker, e, r.0),
    {
        let ghost start = worker;
        let (mut work, mut state) = worker;
        let mut merged: Vec<Option<T>> = Vec::new();
        let ghost mut records: Seq<Record<T>> = Seq::empty();
        proof {
            self.job().lemma_leads_none::<T>(state);
            assert(steps_of(records) =~= Seq::<Step<T>>::empty());
            lemma_grew_nothing(work, work);
            assert(self.progressed(start, records, (work, state)));
        }
        for k in 0..chunk.len()
            invariant
                self.wf::<T>(),
                start == worker,
                self.job().reachable::<T>(start.1),
                self.can_merge(batch, chunk@),
                records.len() == k,
                self.records_of(batch, chunk@, records),
                outputs_are(records, merged@),
                self.progressed(start, records, (work, state)),
        {
            let pending = &chunk[k];
            assert(batch.holds(chunk@[k as int]));
            let term = batch.term_of(pending);
            let inputs = batch.inputs_of(pending);
            let ghost merging = batch.pending_view(chunk@[k as int]);
            let ghost at: Worker<S> = (work, state);
            proof {
                assert((term@, inputs@) == merging);
                self.job().lemma_still_reachable(start.1, steps_of(records), state);
            }
            let (after, output) = self.merge_term(term, inputs, &mut work, state);
            state = after;
            match output {
                Ok(output) => {
                    proof {
                        let record = choose|record: Record<T>|
                            record.term == merging && record.output == output && #[trigger] self.merged_as(
                                at,
                                record,
                                (work, state),
                            );
                        self.lemma_progress(start, records, at, record, (work, state));
                        records = records.push(record);
                    }
                    merged.push(output);
                },
                Err(e) => {
                    let back = (work, state);
                    assert(self.chunk_failed::<T>(batch, chunk@, start, e, back));
                    return (back, Err(e));
                },
            }
        }
        let back = (work, state);
        assert(self.chunk_merged(batch, chunk@, start, merged@, back));
        (back, Ok(merged))
    }

    /// One more term merged is one more record.
    proof fn lemma_progress<T>(
        &self,
        start: Worker<S>,
        records: Seq<Record<T>>,
        at: Worker<S>,
        record: Record<T>,
        after: Worker<S>,
    ) where E: Fn(S, &[(u32, u32)], TermRuns<'_>) -> (S, Result<T, BuildError>)
        requires
            self.progressed(start, records, at),
            self.merged_as(at, record, after),
        ensures
            self.progressed(start, records.push(record), after),
    {
        let job = self.job();
        let more = records.push(record);
        let steps = steps_of(records);
        lemma_steps_push(records, record);
        match record.output {
            Some(out) => {
                let step = (record.kept, out);
                job.lemma_leads_one(at.1, step, after.1);
                job.lemma_leads_both(start.1, steps, at.1, seq![step], after.1);
                assert(steps + seq![step] =~= steps.push(step));
                assert(steps.push(step).drop_last() =~= steps);
                lemma_grew_both(start.0, at.0, after.0, tally(steps), tally_of(record.kept));
            },
            None => {
                lemma_empty_tally(record.kept);
                lemma_grew_both(start.0, at.0, after.0, tally(steps), no_tally());
                assert(tally(steps).plus(no_tally()) == tally(steps));
            },
        }
        assert forall|k: int| 0 <= k < more.len() implies job.is_record(#[trigger] more[k]) by {
            if k < records.len() {
                assert(more[k] == records[k]);
            }
        }
    }

    /// The workers `first` merged `records`, worker `who[k]` record `k`, and became `last`.
    pub open spec fn work_done<T>(
        &self,
        first: Seq<Worker<S>>,
        records: Seq<Record<T>>,
        who: Seq<int>,
        last: Seq<Worker<S>>,
    ) -> bool where E: Fn(S, &[(u32, u32)], TermRuns<'_>) -> (S, Result<T, BuildError>) {
        &&& last.len() == first.len()
        &&& forall|k: int| 0 <= k < records.len() ==> self.job().is_record(#[trigger] records[k])
        &&& self.job().worked(states_of(first), records, who, states_of(last))
        &&& forall|w: int|
            0 <= w < first.len() ==> grew(
                first[w].0,
                (#[trigger] last[w]).0,
                tally(share(records, who, w)),
            )
    }

    /// `first` are the workers `before`, and then new ones, no more than `n` in all.
    pub open spec fn grown(&self, before: Seq<Worker<S>>, first: Seq<Worker<S>>, n: nat) -> bool {
        &&& first.len() == before.len() || before.len() < first.len() <= n
        &&& forall|w: int| 0 <= w < before.len() ==> #[trigger] first[w] == before[w]
        &&& forall|w: int|
            before.len() <= w < first.len() ==> self.job().new_state.ensures((), (#[trigger] first[w]).1)
                && first[w].0.counted(no_tally())
    }

    /// Every one of `terms` was merged, to `merged`, once, by one of the workers, which went from
    /// `before` to `after`. New ones were made only while there were fewer than `most`.
    pub open spec fn batch_merged<T>(
        &self,
        before: Seq<Worker<S>>,
        terms: Seq<MergedTerm>,
        most: nat,
        merged: Seq<Option<T>>,
        after: Seq<Worker<S>>,
    ) -> bool where E: Fn(S, &[(u32, u32)], TermRuns<'_>) -> (S, Result<T, BuildError>) {
        exists|records: Seq<Record<T>>, who: Seq<int>, first: Seq<Worker<S>>|
            self.grown(before, first, most) && terms_of(records) == terms && outputs_are(records, merged)
                && #[trigger] self.work_done(first, records, who, after)
    }

    /// Every one of `terms` was merged, to `merged`, once, by one of the workers there are, which
    /// went from `before` to `after`.
    pub open spec fn tasks_merged<T>(
        &self,
        before: Seq<Worker<S>>,
        terms: Seq<MergedTerm>,
        merged: Seq<Option<T>>,
        after: Seq<Worker<S>>,
    ) -> bool where E: Fn(S, &[(u32, u32)], TermRuns<'_>) -> (S, Result<T, BuildError>) {
        exists|records: Seq<Record<T>>, who: Seq<int>|
            terms_of(records) == terms && outputs_are(records, merged) && #[trigger] self.work_done(
                before,
                records,
                who,
                after,
            )
    }

    /// Workers that have merged nothing are as they were.
    proof fn lemma_done_none<T>(&self, first: Seq<Worker<S>>) where
        E: Fn(S, &[(u32, u32)], TermRuns<'_>) -> (S, Result<T, BuildError>),

        ensures
            self.work_done(first, Seq::<Record<T>>::empty(), Seq::empty(), first),
    {
        self.job().lemma_worked_none::<T>(states_of(first));
        assert forall|w: int| 0 <= w < first.len() implies grew(
            first[w].0,
            (#[trigger] first[w]).0,
            tally(share(Seq::<Record<T>>::empty(), Seq::empty(), w)),
        ) by {
            lemma_grew_nothing(first[w].0, first[w].0);
        }
    }

    /// What one worker merges more, all of them have.
    proof fn lemma_done_more<T>(
        &self,
        first: Seq<Worker<S>>,
        records: Seq<Record<T>>,
        who: Seq<int>,
        last: Seq<Worker<S>>,
        v: int,
        more: Seq<Record<T>>,
        to: Worker<S>,
    ) where E: Fn(S, &[(u32, u32)], TermRuns<'_>) -> (S, Result<T, BuildError>)
        requires
            self.work_done(first, records, who, last),
            0 <= v < last.len(),
            self.progressed(last[v], more, to),
        ensures
            self.work_done(first, records + more, who + by_one(more.len(), v), last.update(v, to)),
    {
        let job = self.job();
        let mine = by_one(more.len(), v);
        let after = last.update(v, to);
        let all = records + more;
        job.lemma_worked_more(states_of(first), records, who, states_of(last), v, more, to.1);
        assert(states_of(last).update(v, to.1) =~= states_of(after));
        assert forall|k: int| 0 <= k < all.len() implies job.is_record(#[trigger] all[k]) by {
            if k < records.len() {
                assert(all[k] == records[k]);
            } else {
                assert(all[k] == more[k - records.len()]);
            }
        }
        assert forall|w: int| 0 <= w < first.len() implies grew(
            first[w].0,
            (#[trigger] after[w]).0,
            tally(share(all, who + mine, w)),
        ) by {
            lemma_share_both(records, who, more, mine, w);
            lemma_share_of_one(more, v, w);
            assert(grew(first[w].0, last[w].0, tally(share(records, who, w))));
            if w == v {
                lemma_tally_both(share(records, who, w), steps_of(more));
                lemma_grew_both(
                    first[w].0,
                    last[w].0,
                    to.0,
                    tally(share(records, who, w)),
                    tally(steps_of(more)),
                );
            } else {
                assert(share(records, who, w) + Seq::<Step<T>>::empty() =~= share(records, who, w));
            }
        }
    }

    /// A term with a record can be merged.
    proof fn lemma_can_merge<T>(&self, record: Record<T>) where
        E: Fn(S, &[(u32, u32)], TermRuns<'_>) -> (S, Result<T, BuildError>),

        requires
            self.job().is_record(record),
        ensures
            self.job().can_merge::<T>(record.term),
    {
        assert(self.job().merges_to(record.term, record.output));
    }

    /// The states that workers come to are the merge's, where those they started with are.
    proof fn lemma_done_reachable<T>(
        &self,
        first: Seq<Worker<S>>,
        records: Seq<Record<T>>,
        who: Seq<int>,
        last: Seq<Worker<S>>,
    ) where E: Fn(S, &[(u32, u32)], TermRuns<'_>) -> (S, Result<T, BuildError>)
        requires
            self.work_done(first, records, who, last),
            self.all_reachable::<T>(first),
        ensures
            self.all_reachable::<T>(last),
    {
        assert forall|w: int| 0 <= w < last.len() implies self.job().reachable::<T>((#[trigger] last[w]).1) by {
            assert(self.job().leads(states_of(first)[w], share(records, who, w), states_of(last)[w]));
            assert(self.job().reachable::<T>(first[w].1));
            self.job().lemma_still_reachable(first[w].1, share(records, who, w), last[w].1);
        }
    }

    /// Make new workers until there are `n`.
    fn grow_workers<T>(&self, workers: &mut Vec<Worker<S>>, n: usize, Ghost(most): Ghost<nat>) where
        E: Fn(S, &[(u32, u32)], TermRuns<'_>) -> (S, Result<T, BuildError>),

        requires
            self.wf::<T>(),
            self.all_reachable::<T>(old(workers)@),
            n <= most,
        ensures
            self.grown(old(workers)@, final(workers)@, most),
            final(workers)@.len() >= n,
            self.all_reachable::<T>(final(workers)@),
    {
        while workers.len() < n
            invariant
                self.wf::<T>(),
                n <= most,
                self.grown(old(workers)@, workers@, most),
                self.all_reachable::<T>(workers@),
            decreases n - workers@.len(),
        {
            let ghost before = workers@;
            let new_state = self.new_state;
            assert(self.job().callable::<T>() && self.job().new_state == *new_state);
            let state = new_state();
            workers.push((TermWork::new(), state));
            proof {
                self.job().lemma_first_reachable::<T>(state);
                assert forall|w: int| 0 <= w < workers@.len() implies self.job().reachable::<T>(
                    (#[trigger] workers@[w]).1,
                ) by {
                    if w < before.len() {
                        assert(workers@[w] == before[w]);
                    }
                }
            }
        }
    }

    /// Work that goes on from where other work ended, with more workers perhaps, is one piece of
    /// work.
    proof fn lemma_done_both<T>(
        &self,
        before: Seq<Worker<S>>,
        first_a: Seq<Worker<S>>,
        a: Seq<Record<T>>,
        who_a: Seq<int>,
        mid: Seq<Worker<S>>,
        first_b: Seq<Worker<S>>,
        b: Seq<Record<T>>,
        who_b: Seq<int>,
        last: Seq<Worker<S>>,
        most: nat,
    ) where E: Fn(S, &[(u32, u32)], TermRuns<'_>) -> (S, Result<T, BuildError>)
        requires
            self.grown(before, first_a, most),
            self.work_done(first_a, a, who_a, mid),
            self.grown(mid, first_b, most),
            self.work_done(first_b, b, who_b, last),
        ensures
            ({
                let first = first_a + first_b.skip(mid.len() as int);
                &&& self.grown(before, first, most)
                &&& self.work_done(first, a + b, who_a + who_b, last)
            }),
    {
        let job = self.job();
        let n = mid.len() as int;
        let new = first_b.skip(n);
        let first = first_a + new;
        let all = a + b;
        let who = who_a + who_b;
        assert forall|w: int| 0 <= w < before.len() implies #[trigger] first[w] == before[w] by {
            assert(first_a[w] == before[w]);
        }
        assert forall|w: int| before.len() <= w < first.len() implies job.new_state.ensures(
            (),
            (#[trigger] first[w]).1,
        ) && first[w].0.counted(no_tally()) by {
            if w < n {
                assert(first[w] == first_a[w]);
            } else {
                assert(first[w] == first_b[w]);
            }
        }
        assert(states_of(mid) + states_of(new) =~= states_of(first_b)) by {
            assert forall|w: int| 0 <= w < first_b.len() implies #[trigger] (states_of(mid) + states_of(new))[w]
                == states_of(first_b)[w] by {
                if w < n {
                    assert(first_b[w] == mid[w]);
                }
            }
        }
        job.lemma_worked_both(
            states_of(first_a),
            a,
            who_a,
            states_of(mid),
            states_of(new),
            b,
            who_b,
            states_of(last),
        );
        assert(states_of(first_a) + states_of(new) =~= states_of(first));
        assert forall|k: int| 0 <= k < all.len() implies job.is_record(#[trigger] all[k]) by {
            if k < a.len() {
                assert(all[k] == a[k]);
            } else {
                assert(all[k] == b[k - a.len()]);
            }
        }
        assert forall|w: int| 0 <= w < first.len() implies grew(
            first[w].0,
            (#[trigger] last[w]).0,
            tally(share(all, who, w)),
        ) by {
            lemma_share_both(a, who_a, b, who_b, w);
            lemma_tally_both(share(a, who_a, w), share(b, who_b, w));
            assert(grew(first_b[w].0, last[w].0, tally(share(b, who_b, w))));
            if w < n {
                assert(first_b[w] == mid[w]);
                assert(grew(first_a[w].0, mid[w].0, tally(share(a, who_a, w))));
                lemma_grew_both(
                    first[w].0,
                    mid[w].0,
                    last[w].0,
                    tally(share(a, who_a, w)),
                    tally(share(b, who_b, w)),
                );
            } else {
                assert forall|k: int| 0 <= k < who_a.len() implies #[trigger] who_a[k] != w by {
                    assert(who_a[k] < states_of(first_a).len());
                }
                lemma_share_none(a, who_a, w);
                assert(share(all, who, w) =~= share(b, who_b, w));
            }
        }
    }

    /// Merge the tasks from `from` to `to` at once, each on a worker of its own: the last workers
    /// there are. Every worker comes back to its place.
    fn merge_tasks<T: Send>(
        &self,
        workers: &mut Vec<Worker<S>>,
        batch: &Batch,
        cuts: &Vec<usize>,
        from: usize,
        to: usize,
    ) -> (r: Result<Vec<Option<T>>, BuildError>) where
        E: Fn(S, &[(u32, u32)], TermRuns<'_>) -> (S, Result<T, BuildError>),

        requires
            self.wf::<T>(),
            self.all_reachable::<T>(old(workers)@),
            batch.wf(),
            self.can_take_all(batch),
            ascends_to(cuts@, batch@.len() as int),
            from <= to < cuts@.len(),
            to - from <= old(workers)@.len(),
        ensures
            r matches Ok(merged) ==> self.tasks_merged(
                old(workers)@,
                batch@.subrange(cuts@[from as int] as int, cuts@[to as int] as int),
                merged@,
                final(workers)@,
            ) && self.all_reachable::<T>(final(workers)@),
            r matches Err(e) ==> self.job().merge_stops::<T>(
                batch@.subrange(cuts@[from as int] as int, cuts@[to as int] as int),
                e,
            ),
            final(workers)@.len() == old(workers)@.len(),
    {
        let terms = batch.terms();
        let n: usize = terms.len();
        let n_tasks: usize = to - from;
        let ghost first = workers@;
        let idle: usize = workers.len() - n_tasks;
        let ghost base = cuts@[from as int] as int;
        let ghost mine_terms = batch@.subrange(base, cuts@[to as int] as int);
        let mine = workers.split_off(idle);
        let ghost taken = mine@;
        proof {
            lemma_cuts_bound(cuts@, n as int, from as int);
            lemma_cuts_bound(cuts@, n as int, to as int);
            lemma_cuts_order(cuts@, n as int, from as int, to as int);
            assert(taken =~= first.skip(idle as int));
            assert(workers@ =~= first.take(idle as int));
        }
        let mut tasks: Vec<Task<S>> = Vec::new();
        let mut at: usize = from;
        for worker in it: mine
            invariant
                it.seq() == taken,
                taken.len() == n_tasks,
                n_tasks == to - from,
                from <= to < cuts@.len(),
                at == from + it.index(),
                tasks@.len() == it.index(),
                forall|i: int|
                    0 <= i < tasks@.len() ==> (#[trigger] tasks@[i]).worker == taken[i] && tasks@[i].start
                        == cuts@[from + i] && tasks@[i].end == cuts@[from + i + 1],
        {
            tasks.push(Task { worker, start: cuts[at], end: cuts[at + 1] });
            at += 1;
        }
        let merge = |task: Task<S>| -> (out: (Worker<S>, Result<Vec<Option<T>>, BuildError>))
            requires
                self.job().reachable::<T>(task.worker.1),
                task.start <= task.end <= terms@.len(),
                self.can_merge(batch, terms@.subrange(task.start as int, task.end as int)),
            ensures
                self.task_done(batch, terms@, task, out.0, out.1),
            {
                let Task { worker, start, end } = task;
                let chunk = &terms[start..end];
                self.merge_chunk(worker, batch, chunk)
            };
        let ghost given = tasks@;
        proof {
            assert forall|i: int| 0 <= i < tasks@.len() implies #[trigger] merge.requires((tasks@[i],)) by {
                let task = tasks@[i];
                assert(task.worker == taken[i]);
                assert(taken[i] == first[idle + i]);
                assert(self.job().reachable::<T>(first[idle + i].1));
                lemma_cuts_bound(cuts@, n as int, from + i);
                lemma_cuts_bound(cuts@, n as int, from + i + 1);
                assert(cuts@[from + i] < cuts@[from + i + 1]);
                let chunk = terms@.subrange(task.start as int, task.end as int);
                assert forall|k: int| 0 <= k < chunk.len() implies batch.holds(#[trigger] chunk[k])
                    && self.can_take(batch.pending_view(chunk[k])) by {
                    let j = task.start + k;
                    assert(chunk[k] == terms@[j]);
                    assert(batch.holds(terms@[j]) && batch.pending_view(terms@[j]) == batch@[j]);
                    assert(self.can_take(batch@[j]));
                }
            }
        }
        let results = par_map_owned(tasks, merge);
        let ghost results0 = results@;
        proof {
            assert forall|i: int| 0 <= i < results0.len() implies self.task_done(
                batch,
                terms@,
                given[i],
                (#[trigger] results0[i]).0,
                results0[i].1,
            ) by {
                assert(merge.ensures((given[i],), results0[i]));
            }
        }
        let mut flat: Vec<Option<T>> = Vec::new();
        let mut failed: Option<BuildError> = None;
        let ghost mut records: Seq<Record<T>> = Seq::empty();
        let ghost mut who: Seq<int> = Seq::empty();
        proof {
            self.lemma_done_none::<T>(first);
            assert(workers@ + first.skip(idle as int) =~= first);
            assert(terms_of(records) =~= mine_terms.take(0));
        }
        for result in it: results
            invariant
                it.seq() == results0,
                results0.len() == n_tasks,
                given.len() == n_tasks,
                n_tasks == to - from,
                from <= to < cuts@.len(),
                idle + n_tasks == first.len(),
                n == terms@.len(),
                terms@.len() == batch@.len(),
                ascends_to(cuts@, n as int),
                base == cuts@[from as int],
                0 <= base <= cuts@[to as int] <= n,
                mine_terms == batch@.subrange(base, cuts@[to as int] as int),
                workers@.len() == idle + it.index(),
                forall|k: int|
                    0 <= k < terms@.len() ==> batch.pending_view(#[trigger] terms@[k]) == batch@[k],
                forall|i: int|
                    0 <= i < given.len() ==> (#[trigger] given[i]).worker == first[idle + i] && given[i].start
                        == cuts@[from + i] && given[i].end == cuts@[from + i + 1],
                forall|i: int|
                    0 <= i < results0.len() ==> self.task_done(
                        batch,
                        terms@,
                        given[i],
                        (#[trigger] results0[i]).0,
                        results0[i].1,
                    ),
                failed is None ==> base + records.len() == cuts@[from + it.index()],
                failed is None ==> records.len() <= mine_terms.len(),
                failed is None ==> terms_of(records) == mine_terms.take(records.len() as int),
                failed is None ==> outputs_are(records, flat@),
                failed is None ==> self.work_done(
                    first,
                    records,
                    who,
                    workers@ + first.skip(idle + it.index()),
                ),
                failed matches Some(e) ==> self.job().merge_stops::<T>(mine_terms, e),
        {
            let ghost i = it.index() as int;
            let ghost task = given[i];
            let ghost chunk = terms@.subrange(task.start as int, task.end as int);
            let ghost last = workers@ + first.skip(idle + i);
            let (worker, out) = result;
            proof {
                assert(results0[i] == result);
                lemma_cuts_bound(cuts@, n as int, from + i);
                lemma_cuts_order(cuts@, n as int, from as int, from + i);
                lemma_cuts_order(cuts@, n as int, from + i + 1, to as int);
                assert(cuts@[from + i] < cuts@[from + i + 1]);
                assert(last[idle + i] == first[idle + i]);
            }
            workers.push(worker);
            assert(last.update(idle + i, worker) =~= workers@ + first.skip(idle + i + 1));
            match out {
                Ok(merged) => {
                    let mut merged = merged;
                    if failed.is_none() {
                        let ghost outs = merged@;
                        let ghost flat0 = flat@;
                        flat.append(&mut merged);
                        proof {
                            let more = self.lemma_task_merged(batch, terms@, task, worker, outs);
                            self.lemma_done_more(first, records, who, last, idle + i, more, worker);
                            let all = records + more;
                            assert forall|k: int| 0 <= k < all.len() implies (#[trigger] all[k]).output
                                == flat@[k] by {
                                if k < records.len() {
                                    assert(records[k].output == flat0[k]);
                                } else {
                                    assert(more[k - records.len()].output == outs[k - records.len()]);
                                }
                            }
                            assert forall|k: int| 0 <= k < all.len() implies #[trigger] terms_of(all)[k]
                                == mine_terms.take(all.len() as int)[k] by {
                                if k < records.len() {
                                    assert(terms_of(records)[k] == mine_terms.take(records.len() as int)[k]);
                                } else {
                                    let j = k - records.len();
                                    assert(more[j].term == batch.pending_view(chunk[j]));
                                    assert(chunk[j] == terms@[base + k]);
                                }
                            }
                            assert(terms_of(all) =~= mine_terms.take(all.len() as int));
                            who = who + by_one(more.len(), idle + i);
                            records = all;
                        }
                    }
                },
                Err(e) => {
                    if failed.is_none() {
                        proof {
                            self.lemma_task_failed(
                                batch,
                                terms@,
                                base,
                                mine_terms,
                                task,
                                worker,
                                e,
                                records,
                            );
                        }
                        failed = Some(e);
                    }
                },
            }
        }
        match failed {
            None => {
                proof {
                    assert(workers@ + first.skip(idle + n_tasks) =~= workers@);
                    assert(mine_terms.take(records.len() as int) =~= mine_terms);
                    self.lemma_done_reachable(first, records, who, workers@);
                    assert(self.tasks_merged(first, mine_terms, flat@, workers@));
                }
                Ok(flat)
            },
            Some(e) => Err(e),
        }
    }

    /// Merge a batch's terms in parallel: each term's output, in term order. Each run of
    /// `task_terms` terms is one task. As many tasks as there are `threads` run at once, each on a
    /// worker of its own, and new workers are made only where those are too few.
    pub fn merge_batch<T: Send>(
        &self,
        workers: &mut Vec<Worker<S>>,
        batch: &Batch,
        task_terms: usize,
        threads: usize,
    ) -> (r: Result<Vec<Option<T>>, BuildError>) where
        E: Fn(S, &[(u32, u32)], TermRuns<'_>) -> (S, Result<T, BuildError>),

        requires
            self.wf::<T>(),
            self.all_reachable::<T>(old(workers)@),
            batch.wf(),
            task_terms > 0,
            threads > 0,
            self.can_take_all(batch),
        ensures
            r matches Ok(merged) ==> self.batch_merged(
                old(workers)@,
                batch@,
                at_once(batch@.len(), task_terms as nat, threads as nat),
                merged@,
                final(workers)@,
            ) && self.all_reachable::<T>(final(workers)@),
            r matches Err(e) ==> self.job().merge_stops::<T>(batch@, e),
    {
        let n: usize = batch.terms().len();
        let cuts = cut(n, task_terms);
        let n_tasks: usize = cuts.len() - 1;
        let ghost before = workers@;
        let ghost most = at_once(batch@.len(), task_terms as nat, threads as nat);
        let ghost mut first = workers@;
        let ghost mut records: Seq<Record<T>> = Seq::empty();
        let ghost mut who: Seq<int> = Seq::empty();
        let mut flat: Vec<Option<T>> = Vec::new();
        let mut done: usize = 0;
        proof {
            lemma_cuts_tasks(cuts@, n as int, task_terms as int, 0);
            self.lemma_done_none::<T>(first);
            assert(terms_of(records) =~= batch@.take(0));
        }
        while done < n_tasks
            invariant
                self.wf::<T>(),
                self.all_reachable::<T>(workers@),
                batch.wf(),
                task_terms > 0,
                threads > 0,
                self.can_take_all(batch),
                n == batch@.len(),
                n_tasks == cuts@.len() - 1,
                n_tasks == tasks_in(n as int, task_terms as nat),
                most == at_once(batch@.len(), task_terms as nat, threads as nat),
                is_cut(cuts@, n as int, task_terms as int),
                done <= n_tasks,
                cuts@[done as int] <= n,
                self.grown(before, first, most),
                self.work_done(first, records, who, workers@),
                terms_of(records) == batch@.take(cuts@[done as int] as int),
                outputs_are(records, flat@),
            decreases n_tasks - done,
        {
            let left: usize = n_tasks - done;
            let wave: usize = if threads < left {
                threads
            } else {
                left
            };
            let ghost mid = workers@;
            self.grow_workers::<T>(workers, wave, Ghost(most));
            let ghost grown = workers@;
            proof {
                lemma_cuts_bound(cuts@, n as int, done + wave);
                lemma_cuts_order(cuts@, n as int, done as int, done + wave);
            }
            let ghost from = cuts@[done as int] as int;
            let ghost to = cuts@[done + wave] as int;
            let ghost mine = batch@.subrange(from, to);
            match self.merge_tasks(workers, batch, &cuts, done, done + wave) {
                Ok(merged) => {
                    let mut merged = merged;
                    let ghost outs = merged@;
                    let ghost flat0 = flat@;
                    flat.append(&mut merged);
                    proof {
                        let (more, more_who) = choose|more: Seq<Record<T>>, more_who: Seq<int>|
                            terms_of(more) == mine && outputs_are(more, outs) && #[trigger] self.work_done(
                                grown,
                                more,
                                more_who,
                                workers@,
                            );
                        self.lemma_done_both(
                            before,
                            first,
                            records,
                            who,
                            mid,
                            grown,
                            more,
                            more_who,
                            workers@,
                            most,
                        );
                        let all = records + more;
                        assert(terms_of(records).len() == from && terms_of(more).len() == to - from);
                        assert forall|k: int| 0 <= k < all.len() implies (#[trigger] all[k]).output == flat@[k] by {
                            if k < records.len() {
                                assert(records[k].output == flat0[k]);
                            } else {
                                assert(more[k - records.len()].output == outs[k - records.len()]);
                            }
                        }
                        assert forall|k: int| 0 <= k < all.len() implies #[trigger] terms_of(all)[k]
                            == batch@.take(to)[k] by {
                            if k < records.len() {
                                assert(terms_of(records)[k] == batch@.take(from)[k]);
                            } else {
                                assert(terms_of(more)[k - from] == mine[k - from]);
                            }
                        }
                        assert(terms_of(all) =~= batch@.take(to));
                        first = first + grown.skip(mid.len() as int);
                        records = all;
                        who = who + more_who;
                    }
                },
                Err(e) => {
                    proof {
                        self.lemma_stops_later(batch@, records, from, to, e);
                    }
                    return Err(e);
                },
            }
            done = done + wave;
        }
        proof {
            assert(batch@.take(n as int) =~= batch@);
            assert(self.batch_merged(before, batch@, most, flat@, workers@));
        }
        Ok(flat)
    }

    /// Where the terms before `from` have records, the first of those from `from` to `to` that
    /// fails is the first of them all.
    proof fn lemma_stops_later<T>(
        &self,
        terms: Seq<MergedTerm>,
        before: Seq<Record<T>>,
        from: int,
        to: int,
        error: BuildError,
    ) where E: Fn(S, &[(u32, u32)], TermRuns<'_>) -> (S, Result<T, BuildError>)
        requires
            0 <= from <= to <= terms.len(),
            terms_of(before) == terms.take(from),
            forall|k: int| 0 <= k < before.len() ==> self.job().is_record(#[trigger] before[k]),
            self.job().merge_stops::<T>(terms.subrange(from, to), error),
        ensures
            self.job().merge_stops::<T>(terms, error),
    {
        let mine = terms.subrange(from, to);
        let k = choose|k: int| 0 <= k < mine.len() && #[trigger] self.job().fails_first::<T>(mine, k, error);
        assert(terms_of(before).len() == from);
        assert(terms[from + k] == mine[k]);
        assert forall|j: int| 0 <= j < from + k implies self.job().can_merge::<T>(#[trigger] terms[j]) by {
            if j < from {
                assert(terms_of(before)[j] == terms.take(from)[j]);
                self.lemma_can_merge(before[j]);
            } else {
                assert(mine[j - from] == terms[j]);
            }
        }
        assert(self.job().fails_first::<T>(terms, from + k, error));
    }

    /// A task ran on its worker, which became `after`, and ended in `out`.
    pub open spec fn task_done<T>(
        &self,
        batch: &Batch,
        terms: Seq<PendingTerm>,
        task: Task<S>,
        after: Worker<S>,
        out: Result<Vec<Option<T>>, BuildError>,
    ) -> bool where E: Fn(S, &[(u32, u32)], TermRuns<'_>) -> (S, Result<T, BuildError>) {
        let chunk = terms.subrange(task.start as int, task.end as int);
        match out {
            Ok(merged) => self.chunk_merged(batch, chunk, task.worker, merged@, after),
            Err(e) => self.chunk_failed::<T>(batch, chunk, task.worker, e, after),
        }
    }

    /// The records of a task that merged its terms.
    proof fn lemma_task_merged<T>(
        &self,
        batch: &Batch,
        terms: Seq<PendingTerm>,
        task: Task<S>,
        after: Worker<S>,
        merged: Seq<Option<T>>,
    ) -> (records: Seq<Record<T>>) where
        E: Fn(S, &[(u32, u32)], TermRuns<'_>) -> (S, Result<T, BuildError>),

        requires
            self.chunk_merged(
                batch,
                terms.subrange(task.start as int, task.end as int),
                task.worker,
                merged,
                after,
            ),
        ensures
            self.records_of(batch, terms.subrange(task.start as int, task.end as int), records),
            records.len() == terms.subrange(task.start as int, task.end as int).len(),
            outputs_are(records, merged),
            self.progressed(task.worker, records, after),
    {
        let chunk = terms.subrange(task.start as int, task.end as int);
        choose|records: Seq<Record<T>>|
            self.records_of(batch, chunk, records) && records.len() == chunk.len() && outputs_are(
                records,
                merged,
            ) && #[trigger] self.progressed(task.worker, records, after)
    }

    /// The first task that fails has the first term of the batch that does.
    proof fn lemma_task_failed<T>(
        &self,
        batch: &Batch,
        terms: Seq<PendingTerm>,
        base: int,
        mine: Seq<MergedTerm>,
        task: Task<S>,
        after: Worker<S>,
        error: BuildError,
        before: Seq<Record<T>>,
    ) where E: Fn(S, &[(u32, u32)], TermRuns<'_>) -> (S, Result<T, BuildError>)
        requires
            self.chunk_failed::<T>(
                batch,
                terms.subrange(task.start as int, task.end as int),
                task.worker,
                error,
                after,
            ),
            terms.len() == batch@.len(),
            forall|k: int| 0 <= k < terms.len() ==> batch.pending_view(#[trigger] terms[k]) == batch@[k],
            0 <= base,
            base + before.len() == task.start,
            task.start <= task.end <= base + mine.len() <= terms.len(),
            mine == batch@.subrange(base, base + mine.len()),
            terms_of(before) == mine.take(before.len() as int),
            forall|k: int| 0 <= k < before.len() ==> self.job().is_record(#[trigger] before[k]),
        ensures
            self.job().merge_stops::<T>(mine, error),
    {
        let chunk = terms.subrange(task.start as int, task.end as int);
        let (records, at) = choose|records: Seq<Record<T>>, at: Worker<S>|
            self.records_of(batch, chunk, records) && records.len() < chunk.len()
                && #[trigger] self.progressed(task.worker, records, at) && self.term_failed::<T>(
                at,
                batch.pending_view(chunk[records.len() as int]),
                error,
                after,
            ) && self.job().fails::<T>(batch.pending_view(chunk[records.len() as int]), error);
        let n = before.len() as int;
        let k = n + records.len();
        assert(chunk[records.len() as int] == terms[base + k]);
        assert forall|j: int| 0 <= j < k implies self.job().can_merge::<T>(#[trigger] mine[j]) by {
            if j < n {
                assert(terms_of(before)[j] == mine.take(n)[j]);
                self.lemma_can_merge(before[j]);
            } else {
                assert(chunk[j - n] == terms[base + j]);
                assert(records[j - n].term == batch.pending_view(chunk[j - n]));
                self.lemma_can_merge(records[j - n]);
            }
        }
        assert(self.job().fails_first::<T>(mine, k, error));
    }

    /// Every one of `terms` was merged, once, by one of the workers, which went from `before` to
    /// `after`, and written, from the sink `from` to `to`.
    pub open spec fn batch_written<T, W, F: Fn(W, &str, T) -> (W, Result<(), BuildError>)>(
        &self,
        before: Seq<Worker<S>>,
        terms: Seq<MergedTerm>,
        most: nat,
        after: Seq<Worker<S>>,
        write: F,
        from: W,
        to: W,
    ) -> bool where E: Fn(S, &[(u32, u32)], TermRuns<'_>) -> (S, Result<T, BuildError>) {
        exists|records: Seq<Record<T>>, who: Seq<int>, first: Seq<Worker<S>>|
            self.grown(before, first, most) && terms_of(records) == terms && self.job().wrote(
                records,
                write,
                from,
                to,
            ) && #[trigger] self.work_done(first, records, who, after)
    }

    /// Merge a batch's terms in parallel, then write them in term order. Where one fails to merge
    /// none is written.
    pub fn run<T: Send, W, F: Fn(W, &str, T) -> (W, Result<(), BuildError>)>(
        &self,
        workers: &mut Vec<Worker<S>>,
        batch: &Batch,
        task_terms: usize,
        threads: usize,
        sink: W,
        write: &F,
    ) -> (r: (W, Result<(), BuildError>)) where
        E: Fn(S, &[(u32, u32)], TermRuns<'_>) -> (S, Result<T, BuildError>),

        requires
            self.wf::<T>(),
            self.all_reachable::<T>(old(workers)@),
            batch.wf(),
            task_terms > 0,
            threads > 0,
            self.can_take_all(batch),
            forall|w: W, text: &str, output: T| #[trigger] write.requires((w, text, output)),
        ensures
            r.1 is Ok ==> self.batch_written(
                old(workers)@,
                batch@,
                at_once(batch@.len(), task_terms as nat, threads as nat),
                final(workers)@,
                *write,
                sink,
                r.0,
            ) && self.all_reachable::<T>(final(workers)@),
            r.1 matches Err(e) ==> self.job().batch_fails(batch@, *write, sink, r.0, e),
    {
        let ghost job = self.job();
        let ghost from = sink;
        let ghost most = at_once(batch@.len(), task_terms as nat, threads as nat);
        let merged = match self.merge_batch(workers, batch, task_terms, threads) {
            Ok(merged) => merged,
            Err(e) => {
                return (sink, Err(e));
            },
        };
        let ghost outs = merged@;
        let ghost (records, who, first) = choose|
            records: Seq<Record<T>>,
            who: Seq<int>,
            first: Seq<Worker<S>>,
        |
            self.grown(old(workers)@, first, most) && terms_of(records) == batch@ && outputs_are(
                records,
                outs,
            ) && #[trigger] self.work_done(first, records, who, workers@);
        let terms = batch.terms();
        let n: usize = terms.len();
        let mut to: W = sink;
        let mut i: usize = 0;
        proof {
            assert(terms_of(records).len() == batch@.len());
            assert(outputs(records.take(0)) =~= Seq::<(Seq<u8>, T)>::empty());
            lemma_written_none::<T, W, F>(*write, from);
            assert(job.wrote(records.take(0), *write, from, from));
        }
        for output in it: merged
            invariant
                job == self.job(),
                it.seq() == outs,
                outs.len() == batch@.len(),
                records.len() == batch@.len(),
                terms_of(records) == batch@,
                outputs_are(records, outs),
                terms@.len() == batch@.len(),
                i == it.index(),
                n == terms@.len(),
                from == sink,
                job.wrote(records.take(it.index() as int), *write, from, to),
                forall|k: int| 0 <= k < records.len() ==> job.is_record(#[trigger] records[k]),
                forall|k: int|
                    0 <= k < terms@.len() ==> batch.holds(#[trigger] terms@[k]) && batch.pending_view(
                        terms@[k],
                    ) == batch@[k],
                forall|w: W, text: &str, output: T| #[trigger] write.requires((w, text, output)),
        {
            let ghost k = it.index() as int;
            let ghost at = to;
            let ghost done = records.take(k);
            let ghost record = records[k];
            proof {
                assert(batch.holds(terms@[k]));
                assert(terms_of(records)[k] == record.term);
                assert(record.output == output);
            }
            let term = batch.term_of(&terms[i]);
            let (after, wrote) = write_term(term, output, to, write);
            to = after;
            proof {
                if let Ok(unit) = wrote {
                    assert(unit == ());
                }
            }
            if let Err(e) = wrote {
                proof {
                    assert(job.merges_to(record.term, record.output));
                    assert(job.refuses(batch@[k], *write, at, to, e));
                    assert(terms_of(done) =~= batch@.take(done.len() as int)) by {
                        assert forall|j: int| 0 <= j < done.len() implies #[trigger] terms_of(done)[j]
                            == batch@.take(done.len() as int)[j] by {
                            assert(terms_of(records)[j] == records[j].term);
                        }
                    }
                    assert(job.refused_after(batch@, done, *write, at, to, e));
                    assert(job.write_stops(batch@, *write, from, to, e));
                    assert forall|j: int| 0 <= j < batch@.len() implies job.can_merge::<T>(
                        #[trigger] batch@[j],
                    ) by {
                        assert(terms_of(records)[j] == records[j].term);
                        self.lemma_can_merge(records[j]);
                    }
                }
                return (to, Err(e));
            }
            proof {
                let more = records.take(k + 1);
                assert(more.drop_last() =~= done);
                assert(more.last() == record);
                assert forall|j: int| 0 <= j < more.len() implies job.is_record(#[trigger] more[j])
                    && valid_utf8(more[j].term.0) by {
                    assert(more[j] == records[j]);
                    if j < k {
                        assert(done[j] == records[j]);
                    }
                }
                if let Some(out) = record.output {
                    lemma_written_push(*write, outputs(done), (record.term.0, out), from, at, to);
                }
            }
            i += 1;
        }
        proof {
            assert(records.take(records.len() as int) =~= records);
            assert(self.batch_written(old(workers)@, batch@, most, workers@, *write, from, to));
        }
        (to, Ok(()))
    }

    /// A batch merged and written after others is merged and written with them.
    proof fn lemma_batch_joins<T, W, F: Fn(W, &str, T) -> (W, Result<(), BuildError>)>(
        &self,
        first: Seq<S>,
        records: Seq<Record<T>>,
        who: Seq<int>,
        mid: Seq<Worker<S>>,
        more_first: Seq<Worker<S>>,
        more: Seq<Record<T>>,
        more_who: Seq<int>,
        last: Seq<Worker<S>>,
        most: nat,
        write: F,
        from: W,
        at: W,
        to: W,
    ) where E: Fn(S, &[(u32, u32)], TermRuns<'_>) -> (S, Result<T, BuildError>)
        requires
            self.job().starts_with(first),
            self.job().worked(first, records, who, states_of(mid)),
            all_counted(mid, records, who),
            mid.len() == self.job().given.len() || mid.len() <= most,
            self.job().wrote(records, write, from, at),
            self.grown(mid, more_first, most),
            self.work_done(more_first, more, more_who, last),
            self.job().wrote(more, write, at, to),
        ensures
            ({
                let all_first = first + states_of(more_first.skip(mid.len() as int));
                let all = records + more;
                let all_who = who + more_who;
                &&& self.job().starts_with(all_first)
                &&& self.job().worked(all_first, all, all_who, states_of(last))
                &&& all_counted(last, all, all_who)
                &&& last.len() == self.job().given.len() || last.len() <= most
                &&& self.job().wrote(all, write, from, to)
            }),
    {
        let job = self.job();
        let n = mid.len() as int;
        let new = states_of(more_first.skip(n));
        let all = records + more;
        let all_who = who + more_who;
        assert(states_of(mid).len() == n);
        assert(states_of(mid) + new =~= states_of(more_first)) by {
            assert forall|w: int| 0 <= w < more_first.len() implies #[trigger] (states_of(mid) + new)[w]
                == states_of(more_first)[w] by {
                if w < n {
                    assert(more_first[w] == mid[w]);
                } else {
                    assert(more_first.skip(n)[w - n] == more_first[w]);
                }
            }
        }
        job.lemma_worked_both(first, records, who, states_of(mid), new, more, more_who, states_of(last));
        job.lemma_wrote_join(records, more, write, from, at, to);
        assert forall|w: int| job.given.len() <= w < (first + new).len() implies job.new_state.ensures(
            (),
            #[trigger] (first + new)[w],
        ) by {
            if w < n {
                assert((first + new)[w] == first[w]);
            } else {
                assert(more_first.skip(n)[w - n] == more_first[w]);
                assert((first + new)[w] == more_first[w].1);
            }
        }
        assert forall|w: int| 0 <= w < last.len() implies (#[trigger] last[w]).0.counted(
            tally(share(all, all_who, w)),
        ) by {
            lemma_share_both(records, who, more, more_who, w);
            lemma_tally_both(share(records, who, w), share(more, more_who, w));
            assert(grew(more_first[w].0, last[w].0, tally(share(more, more_who, w))));
            if w < n {
                assert(more_first[w] == mid[w]);
                assert(mid[w].0.counted(tally(share(records, who, w))));
            } else {
                assert forall|k: int| 0 <= k < who.len() implies #[trigger] who[k] != w by {
                    assert(who[k] < first.len());
                }
                lemma_share_none(records, who, w);
                assert(more_first[w].0.counted(no_tally()));
            }
        }
    }
}

/// Write a term's output, where there is one. A term that is not text is refused either way.
pub fn write_term<T, W, F: Fn(W, &str, T) -> (W, Result<(), BuildError>)>(
    term: &[u8],
    output: Option<T>,
    sink: W,
    write: &F,
) -> (r: (W, Result<(), BuildError>))
    requires
        forall|w: W, text: &str, output: T| #[trigger] write.requires((w, text, output)),
    ensures
        !valid_utf8(term@) ==> r.0 == sink && r.1 is Err && is_non_utf8_error(r.1->Err_0),
        valid_utf8(term@) ==> match output {
            // A term whose every posting was deleted leaves the output.
            None => r.0 == sink && r.1 is Ok,
            Some(out) => writes(*write, term@, out, sink, r.0, r.1),
        },
{
    match text_of(term) {
        None => (sink, Err(non_utf8_error())),
        Some(text) => match output {
            None => (sink, Ok(())),
            Some(output) => write(sink, text, output),
        },
    }
}

/// Merge `column_id` across `inputs`: for every term that still has a surviving posting,
/// `encode(state, postings, runs)` builds its output and `write(sink, term, output)` places it.
/// `postings` are `(output_doc_id, tf)`, doc ids ascending; `runs` holds each posting's position
/// run, decoded (empty for a non-positional column).
///
/// `encode` runs on many threads at once, each call with a worker state from `states`, grown with
/// `new_state` as needed; `write` runs on this thread, once per term, in term order. The states are
/// handed back in `states`, each in its place, so the caller can fold what they gathered. What was
/// counted is returned. After an error the states are gone, unless the walk over the dictionaries
/// could not be begun.
pub fn merge_column<
    R: FtsReader + Sync,
    S: Send,
    T: Send,
    W,
    N: Fn() -> S + Sync,
    E: Fn(S, &[(u32, u32)], TermRuns<'_>) -> (S, Result<T, BuildError>) + Sync,
    F: Fn(W, &str, T) -> (W, Result<(), BuildError>),
>(
    inputs: &[SortedInput<R>],
    column_id: u32,
    limits: &BatchLimits,
    states: &mut Vec<S>,
    new_state: N,
    encode: E,
    sink: W,
    write: F,
) -> (r: (W, Result<MergeCounts, BuildError>))
    requires
        limits.task_terms > 0,
        job(inputs@, column_id, old(states)@, new_state, encode).callable::<T>(),
        all_indexed(inputs@) ==> job(inputs@, column_id, old(states)@, new_state, encode).readable(),
        forall|w: W, text: &str, output: T| #[trigger] write.requires((w, text, output)),
    ensures
        !all_indexed(inputs@) ==> r.1 is Err && r.1->Err_0 is BatchReadError && r.0 == sink
            && final(states)@ == old(states)@,
        all_indexed(inputs@) ==> (r.1 matches Ok(counts) ==> job(
            inputs@,
            column_id,
            old(states)@,
            new_state,
            encode,
        ).completed(*limits, write, sink, r.0, final(states)@, counts)),
        all_indexed(inputs@) ==> (r.1 matches Err(e) ==> job(
            inputs@,
            column_id,
            old(states)@,
            new_state,
            encode,
        ).broke_off(*limits, write, sink, r.0, e)),
        all_indexed(inputs@) ==> (r.1 matches Err(e) ==> final(states)@.len() == 0 || (final(states)@
            == old(states)@ && r.0 == sink && job(
            inputs@,
            column_id,
            old(states)@,
            new_state,
            encode,
        ).walk_fails(e))),
{
    let threads: usize = rayon::current_num_threads();
    let threads: usize = if threads == 0 {
        1
    } else {
        threads
    };
    merge_column_on(inputs, column_id, limits, threads, states, new_state, encode, sink, write)
}

/// Merge a column as [`merge_column`] does, with as many tasks at once as `threads`. There are no
/// more states than that, unless more were given.
pub fn merge_column_on<
    R: FtsReader + Sync,
    S: Send,
    T: Send,
    W,
    N: Fn() -> S + Sync,
    E: Fn(S, &[(u32, u32)], TermRuns<'_>) -> (S, Result<T, BuildError>) + Sync,
    F: Fn(W, &str, T) -> (W, Result<(), BuildError>),
>(
    inputs: &[SortedInput<R>],
    column_id: u32,
    limits: &BatchLimits,
    threads: usize,
    states: &mut Vec<S>,
    new_state: N,
    encode: E,
    sink: W,
    write: F,
) -> (r: (W, Result<MergeCounts, BuildError>))
    requires
        limits.task_terms > 0,
        threads > 0,
        job(inputs@, column_id, old(states)@, new_state, encode).callable::<T>(),
        all_indexed(inputs@) ==> job(inputs@, column_id, old(states)@, new_state, encode).readable(),
        forall|w: W, text: &str, output: T| #[trigger] write.requires((w, text, output)),
    ensures
        !all_indexed(inputs@) ==> r.1 is Err && r.1->Err_0 is BatchReadError && r.0 == sink
            && final(states)@ == old(states)@,
        all_indexed(inputs@) ==> (r.1 matches Ok(counts) ==> job(
            inputs@,
            column_id,
            old(states)@,
            new_state,
            encode,
        ).completed(*limits, write, sink, r.0, final(states)@, counts)),
        all_indexed(inputs@) ==> (r.1 matches Err(e) ==> job(
            inputs@,
            column_id,
            old(states)@,
            new_state,
            encode,
        ).broke_off(*limits, write, sink, r.0, e)),
        all_indexed(inputs@) ==> (r.1 matches Err(e) ==> final(states)@.len() == 0 || (final(states)@
            == old(states)@ && r.0 == sink && job(
            inputs@,
            column_id,
            old(states)@,
            new_state,
            encode,
        ).walk_fails(e))),
        r.1 is Ok ==> final(states)@.len() == old(states)@.len() || final(states)@.len() <= threads,
{
    let ghost from = sink;
    let ghost merge = job(inputs@, column_id, old(states)@, new_state, encode);
    let mut readers: Vec<&R> = Vec::new();
    for i in 0..inputs.len()
        invariant
            states@ == old(states)@,
            readers@.len() == i,
            forall|j: int| 0 <= j < i ==> (#[trigger] inputs@[j]).fts is Some,
            forall|j: int| 0 <= j < i ==> #[trigger] readers@[j] == inputs@[j].fts->0,
    {
        match &inputs[i].fts {
            Some(fts) => {
                readers.push(fts);
            },
            None => {
                assert(!all_indexed(inputs@)) by {
                    assert(inputs@[i as int].fts is None);
                }
                return (sink, Err(BuildError::BatchReadError));
            },
        }
    }
    assert(readers@ =~= readers_of(inputs@));
    let ghost mut terms: Seq<MergedTerm> = Seq::empty();
    proof {
        assert forall|dicts: Seq<Seq<Entry>>| #[trigger] merge.dictionaries(dicts) implies begins_merge(
            dicts,
            terms,
        ) by {
            assert(terms =~= first_terms(dicts, at_first(dicts.len()), 0));
        }
        merge.lemma_wrote_none(write, from);
    }
    let mut walk = match TermWalk::new(&readers, column_id) {
        Ok(walk) => walk,
        Err(e) => {
            proof {
                let i = choose|i: int|
                    0 <= i < readers@.len() && read_failed(#[trigger] readers@[i], column_id, e);
                assert(readers@[i] == merge.fts(i));
                assert(merge.walk_fails(e));
                assert(terms + terms =~= terms);
                assert(merge.begins(terms + terms));
                assert(merge.wrote_all(terms, write, from, from));
                assert(merge.ends_in::<T, W, F>(*limits, terms, write, from, from, e));
                assert(merge.broke_off(*limits, write, from, from, e));
            }
            return (sink, Err(e));
        },
    };
    let ghost start = walk;
    let ghost dicts0 = choose|dicts: Seq<Seq<Entry>>| #[trigger]
        merge.dictionaries(dicts) && merge.places_entries(dicts);
    let work = BatchWork::new::<T>(&readers, inputs, column_id, states, &new_state, &encode);
    let mut given: Vec<S> = Vec::new();
    std::mem::swap(&mut given, states);
    let mut workers = with_workers(given);
    let mut term_inputs: u64 = 0;
    let ghost mut records: Seq<Record<T>> = Seq::empty();
    let ghost mut who: Seq<int> = Seq::empty();
    let ghost mut first: Seq<S> = merge.given;
    proof {
        assert(states_of(workers@) =~= merge.given);
        merge.lemma_worked_none::<T>(first);
        assert(terms_of(records) =~= terms);
        assert(outputs(records) =~= Seq::<(Seq<u8>, T)>::empty());
        lemma_written_none::<T, W, F>(write, from);
        assert forall|w: int| 0 <= w < workers@.len() implies merge.reachable::<T>(
            (#[trigger] workers@[w]).1,
        ) by {
            assert(merge.given[w] == workers@[w].1);
            merge.lemma_first_reachable::<T>(workers@[w].1);
        }
    }
    let mut batch = Batch::new();
    // The term that was walked and did not fit in the batch before.
    let mut over = Batch::new();
    let mut to: W = sink;
    let mut more: bool = true;
    proof {
        assert(inputs_of(over@) =~= over.inputs());
        assert(terms + over@ =~= terms);
        start.lemma_same_as_itself();
        assert(start.walks(dicts0) && start.at(dicts0, at_first(dicts0.len())));
        walk.lemma_at_within(dicts0, at_first(dicts0.len()));
        lemma_entries_after(dicts0, at_first(dicts0.len()), 0);
    }
    while more
        invariant
            all_indexed(inputs@),
            states@.len() == 0,
            limits.task_terms > 0,
            threads > 0,
            from == sink,
            merge == job(inputs@, column_id, old(states)@, new_state, encode),
            readers@ == readers_of(inputs@),
            work.wf::<T>(),
            work.job() == merge,
            forall|w: W, text: &str, output: T| #[trigger] write.requires((w, text, output)),
            walk.wf(),
            walk.same_walks(&start),
            walk.n_inputs() == inputs@.len(),
            start.n_inputs() == inputs@.len(),
            forall|i: int| 0 <= i < inputs@.len() ==> #[trigger] start.fts(i) == readers@[i],
            forall|i: int| 0 <= i < inputs@.len() ==> #[trigger] start.column_id(i) == column_id,
            forall|dicts: Seq<Seq<Entry>>| #[trigger] merge.dictionaries(dicts) ==> start.walks(dicts),
            forall|dicts: Seq<Seq<Entry>>| #[trigger]
                merge.dictionaries(dicts) ==> walk.at(
                    dicts,
                    after_terms(dicts, at_first(dicts.len()), (terms + over@).len()),
                ),
            merge.dictionaries(dicts0),
            merge.places_entries(dicts0),
            at_hand(over, inputs@.len()),
            over@.len() <= 1,
            merge.begins(terms + over@),
            within(dicts0, at_first(dicts0.len())),
            batch.wf(),
            batch@.len() == 0,
            batch.inputs().len() == 0,
            merge.begins(terms),
            terms_of(records) == terms,
            merge.wrote(records, write, from, to),
            merge.starts_with(first),
            merge.worked(first, records, who, states_of(workers@)),
            work.all_reachable::<T>(workers@),
            all_counted(workers@, records, who),
            workers@.len() == merge.given.len() || workers@.len() <= threads,
            workers@.len() == merge.given.len() || workers@.len() <= most_tasks(*limits, records.len()),
            term_inputs == capped(total_inputs(records)),
            !more ==> merge.whole(terms),
        decreases
            if more {
                1 + entries_left(
                    dicts0,
                    after_terms(dicts0, at_first(dicts0.len()), (terms + over@).len()),
                    dicts0.len() as int,
                ) + over@.len()
            } else {
                0
            },
    {
        let ghost before = walk;
        let ghost at = to;
        proof {
            start.lemma_same_as_itself();
            TermWalk::lemma_same_walks(&walk, &start, &start);
            assert(merge.dictionaries(dicts0));
            assert(walk.walks(dicts0));
            assert(walk.in_order());
        }
        let ghost ahead = terms + over@;
        let ghost held = over@;
        let filled = walk.fill_batch(&mut batch, &mut over, limits);
        proof {
            TermWalk::lemma_same_walks(&walk, &before, &start);
        }
        let full = match filled {
            Ok(full) => full,
            Err(e) => {
                proof {
                    let i = choose|i: int|
                        0 <= i < before.n_inputs() && read_failed(
                            #[trigger] before.fts(i),
                            before.column_id(i),
                            e,
                        );
                    assert(before.fts(i) == start.fts(i));
                    assert(merge.fts(i) == start.fts(i));
                    assert(merge.walk_fails(e));
                    assert(merge.wrote_all(terms, write, from, to));
                    let none = Seq::<MergedTerm>::empty();
                    assert(terms + none =~= terms);
                    assert(merge.begins(terms + none));
                    assert(merge.ends_in::<T, W, F>(*limits, none, write, to, to, e));
                    assert(merge.broke_off(*limits, write, from, to, e));
                }
                return (to, Err(e));
            },
        };
        let ghost next = terms + batch@;
        proof {
            assert forall|dicts: Seq<Seq<Entry>>| #[trigger] merge.dictionaries(dicts) implies {
                &&& begins_merge(dicts, next)
                &&& begins_merge(dicts, next + over@)
                &&& walk.at(dicts, after_terms(dicts, at_first(dicts.len()), (next + over@).len()))
                &&& !full ==> is_merge(dicts, next)
            } by {
                let pos = after_terms(dicts, at_first(dicts.len()), ahead.len());
                assert(before.walks(dicts) && before.at(dicts, pos));
                let m = (batch@.len() + over@.len() - held.len()) as nat;
                let walked = first_terms(dicts, pos, m);
                assert(goes_on(dicts, pos, m));
                assert(begins_merge(dicts, ahead));
                lemma_begins_both(dicts, ahead, walked);
                assert(ahead + walked =~= terms + (held + walked));
                assert(next + over@ =~= terms + (batch@ + over@));
                lemma_begins_fewer(dicts, next, over@);
                if !full {
                    assert(next + over@ =~= next);
                }
            }
        }
        proof {
            assert forall|k: int| 0 <= k < batch@.len() implies work.can_take(#[trigger] batch@[k]) by {
                assert(begins_merge(dicts0, next));
                assert(next[terms.len() + k] == batch@[k]);
                assert(dicts0.len() == readers_of(inputs@).len());
                assert(readers_of(inputs@).len() == inputs.len());
                lemma_placed(merge, dicts0, next, terms.len() + k);
            }
        }
        let n_inputs: usize = batch.n_inputs();
        term_inputs = term_inputs.saturating_add(n_inputs as u64);
        let ghost mid = workers@;
        let ghost wave = at_once(batch@.len(), limits.task_terms as nat, threads as nat);
        let (after, ran) = work.run(&mut workers, &batch, limits.task_terms, threads, to, &write);
        to = after;
        if let Err(e) = ran {
            proof {
                assert(merge.wrote_all(terms, write, from, at));
                assert(merge.begins(terms + batch@));
                assert(merge.ends_in(*limits, batch@, write, at, to, e));
                assert(merge.broke_off(*limits, write, from, to, e));
            }
            return (to, Err(e));
        }
        proof {
            let (more_records, more_who, more_first) = choose|
                more_records: Seq<Record<T>>,
                more_who: Seq<int>,
                more_first: Seq<Worker<S>>,
            |
                work.grown(mid, more_first, wave) && terms_of(more_records) == batch@
                    && merge.wrote(more_records, write, at, to) && #[trigger] work.work_done(
                    more_first,
                    more_records,
                    more_who,
                    workers@,
                );
            let n_all = (records + more_records).len();
            let in_all = most_tasks(*limits, n_all);
            let most = if in_all <= threads {
                in_all
            } else {
                threads as nat
            };
            lemma_more_tasks(*limits, records.len(), batch@, n_all);
            assert(terms_of(more_records).len() == batch@.len());
            assert(wave <= most);
            assert(work.grown(mid, more_first, most));
            work.lemma_batch_joins(
                first,
                records,
                who,
                mid,
                more_first,
                more_records,
                more_who,
                workers@,
                most,
                write,
                from,
                at,
                to,
            );
            lemma_inputs_of(more_records, batch@);
            lemma_inputs_both(records, more_records);
            assert(terms_of(records + more_records) =~= next);
            assert(begins_merge(dicts0, next + over@));
            lemma_entries_between(dicts0, ahead.len(), (next + over@).len());
            first = first + states_of(more_first.skip(mid.len() as int));
            records = records + more_records;
            who = who + more_who;
            terms = next;
        }
        batch.clear();
        more = full;
    }
    let totals = total_counts::<S, T>(&workers, Ghost(records), Ghost(who));
    let counts = MergeCounts {
        postings: totals.postings,
        term_inputs,
        sorted_terms: totals.sorted_terms,
        sorted_postings: totals.sorted_postings,
        run_values: totals.run_values,
    };
    *states = into_states(workers);
    proof {
        assert(merge.hands_back(*limits, records, states@));
        assert forall|k: int|
            0 <= k < records.len() && (#[trigger] records[k]).output is None implies records[k].kept.len() == 0 by {
            assert(merge.is_record(records[k]));
        }
        lemma_shares_make_up_all(records, who, states@.len() as int);
        assert(counts.count(records));
        assert(merge.completed(*limits, write, from, to, states@, counts));
    }
    (to, Ok(counts))
}

/// What is read of a term of the merge can be placed, where what is read of the dictionaries'
/// entries can.
proof fn lemma_placed<R: FtsReader, S, N: Fn() -> S, E>(
    merge: Job<R, S, N, E>,
    dicts: Seq<Seq<Entry>>,
    terms: Seq<MergedTerm>,
    j: int,
)
    requires
        merge.dictionaries(dicts),
        merge.places_entries(dicts),
        begins_merge(dicts, terms),
        dicts.len() <= usize::MAX,
        0 <= j < terms.len(),
    ensures
        merge.placed(terms[j]),
        inputs_below(terms[j].1, merge.inputs.len()),
{
    let term = terms[j];
    assert(all_ascending(dicts)) by {
        assert forall|i: int| 0 <= i < dicts.len() implies ascending_terms(#[trigger] dicts[i]) by {
            assert(dictionary_of(readers_of(merge.inputs)[i], merge.column_id, dicts[i]));
        }
    }
    merge_holds_only_terms(dicts, terms, j);
    assert forall|h: int| 0 <= h < term.1.len() implies (#[trigger] term.1[h]).0 < merge.inputs.len() by {
        let (i, value) = term.1[h];
        assert(i < dicts.len());
    }
    assert forall|h: int, list: Vec<Posting>|
        0 <= h < term.1.len() && #[trigger] reads_postings(
            merge.fts(term.1[h].0 as int),
            merge.column_id,
            term.0,
            term.1[h].1,
            Ok(list),
        ) implies placeable(list@, merge.inputs[term.1[h].0 as int].remap@) by {
        let (i, value) = term.1[h];
        let dict = dicts[i as int];
        assert(dict.contains((term.0, value)));
        let k = choose|k: int| 0 <= k < dict.len() && dict[k] == (term.0, value);
        assert(reads_postings(
            merge.fts(i as int),
            merge.column_id,
            dicts[i as int][k].0,
            dicts[i as int][k].1,
            Ok(list),
        ));
    }
}

/// With a batch of `next` more, there are no fewer tasks than its own, nor than there were.
proof fn lemma_more_tasks(limits: BatchLimits, before: nat, next: Seq<MergedTerm>, all: nat)
    requires
        within_limits(next, limits),
        all == before + next.len(),
    ensures
        most_tasks(limits, before) <= most_tasks(limits, all),
        tasks_in(next.len() as int, limits.task_terms as nat) <= most_tasks(limits, all),
{
    let most = if limits.terms > 0 {
        limits.terms as int
    } else {
        1
    };
    let size = limits.task_terms as nat;
    let in_all = if all <= most {
        all as int
    } else {
        most
    };
    let in_first = if before <= most {
        before as int
    } else {
        most
    };
    lemma_fewer_tasks(in_first, in_all, size);
    lemma_fewer_tasks(next.len() as int, in_all, size);
}

/// A worker for each of `states`.
pub fn with_workers<S>(states: Vec<S>) -> (workers: Vec<Worker<S>>)
    ensures
        states_of(workers@) == states@,
        forall|w: int| 0 <= w < workers@.len() ==> (#[trigger] workers@[w]).0.counted(no_tally()),
{
    let ghost given = states@;
    let mut workers: Vec<Worker<S>> = Vec::new();
    for state in it: states
        invariant
            it.seq() == given,
            workers@.len() == it.index(),
            forall|w: int|
                0 <= w < workers@.len() ==> (#[trigger] workers@[w]).1 == given[w]
                    && workers@[w].0.counted(no_tally()),
    {
        workers.push((TermWork::new(), state));
    }
    assert(states_of(workers@) =~= given);
    workers
}

/// The workers' states, in the order of the workers.
pub fn into_states<S>(workers: Vec<Worker<S>>) -> (states: Vec<S>)
    ensures
        states@ == states_of(workers@),
{
    let ghost given = workers@;
    let mut states: Vec<S> = Vec::new();
    for worker in it: workers
        invariant
            it.seq() == given,
            states@.len() == it.index(),
            forall|w: int| 0 <= w < states@.len() ==> #[trigger] states@[w] == given[w].1,
    {
        states.push(worker.1);
    }
    assert(states@ =~= states_of(given));
    states
}

/// Each worker has counted its share of `records`.
pub open spec fn all_counted<S, T>(workers: Seq<Worker<S>>, records: Seq<Record<T>>, who: Seq<int>) -> bool {
    forall|w: int|
        0 <= w < workers.len() ==> (#[trigger] workers[w]).0.counted(tally(share(records, who, w)))
}

/// What the workers have counted, all together.
fn total_counts<S, T>(
    workers: &Vec<Worker<S>>,
    Ghost(records): Ghost<Seq<Record<T>>>,
    Ghost(who): Ghost<Seq<int>>,
) -> (totals: TermCounts)
    requires
        all_counted(workers@, records, who),
    ensures
        totals.count(tally_shares(records, who, workers@.len() as int)),
{
    let mut totals = TermCounts::new();
    for w in 0..workers.len()
        invariant
            all_counted(workers@, records, who),
            totals.count(tally_shares(records, who, w as int)),
    {
        let counts = workers[w].0.counts();
        let ghost so_far = tally_shares(records, who, w as int);
        let ghost mine = tally(share(records, who, w as int));
        assert(workers@[w as int].0.counted(mine));
        assert(counts.count(mine));
        totals.absorb(&counts);
        assert(totals.count(so_far.plus(mine)));
    }
    totals
}

/// The inputs of a batch are those of its terms.
proof fn lemma_inputs_of<T>(records: Seq<Record<T>>, terms: Seq<MergedTerm>)
    requires
        terms_of(records) == terms,
    ensures
        inputs_of(terms).len() == total_inputs(records),
    decreases records.len(),
{
    assert(terms.len() == records.len());
    if records.len() > 0 {
        assert(terms_of(records.drop_last()) =~= terms.drop_last());
        lemma_inputs_of(records.drop_last(), terms.drop_last());
        assert(terms.last() == records.last().term);
    }
}

/// `cuts` cuts `n` things into runs of `size`, the last of them shorter where they do not come out
/// even: run `i` is from cut `i` to the next.
pub open spec fn is_cut(cuts: Seq<usize>, n: int, size: int) -> bool {
    &&& ascends_to(cuts, n)
    &&& cuts[0] == 0
    &&& forall|i: int| 0 <= i < cuts.len() - 1 ==> #[trigger] is_run(cuts, i, n, size)
}

/// The cuts ascend, and the last of them is `n`.
pub open spec fn ascends_to(cuts: Seq<usize>, n: int) -> bool {
    &&& cuts.len() > 0
    &&& cuts.last() == n
    &&& forall|i: int, j: int| 0 <= i < j < cuts.len() ==> #[trigger] cuts[i] < #[trigger] cuts[j]
}

/// How many tasks of a batch of `n_terms` terms run at once on `threads` threads.
pub open spec fn at_once(n_terms: nat, task_terms: nat, threads: nat) -> nat {
    let tasks = tasks_in(n_terms as int, task_terms);
    if tasks <= threads {
        tasks
    } else {
        threads
    }
}

/// Run `i` is `size` long, or goes to the end.
pub open spec fn is_run(cuts: Seq<usize>, i: int, n: int, size: int) -> bool {
    cuts[i + 1] == if cuts[i] + size <= n {
        cuts[i] + size
    } else {
        n
    }
}

/// Cut `n` things into runs of `size`.
pub fn cut(n: usize, size: usize) -> (cuts: Vec<usize>)
    requires
        size > 0,
    ensures
        is_cut(cuts@, n as int, size as int),
{
    let mut cuts: Vec<usize> = Vec::new();
    let mut at: usize = 0;
    cuts.push(0);
    while at < n
        invariant
            size > 0,
            at <= n,
            cuts@.len() > 0,
            cuts@[0] == 0,
            cuts@.last() == at,
            forall|i: int, j: int| 0 <= i < j < cuts@.len() ==> #[trigger] cuts@[i] < #[trigger] cuts@[j],
            forall|i: int|
                0 <= i < cuts@.len() - 1 ==> #[trigger] is_run(cuts@, i, n as int, size as int),
        decreases n - at,
    {
        let ghost before = cuts@;
        at = if n - at <= size {
            n
        } else {
            at + size
        };
        cuts.push(at);
        proof {
            assert forall|i: int, j: int| 0 <= i < j < cuts@.len() implies #[trigger] cuts@[i]
                < #[trigger] cuts@[j] by {
                assert(before[i] <= before.last()) by {
                    if i < before.len() - 1 {
                        assert(before[i] < before[before.len() - 1]);
                    }
                }
                if j < before.len() {
                    assert(before[i] < before[j]);
                }
            }
            assert forall|i: int| 0 <= i < cuts@.len() - 1 implies #[trigger] is_run(
                cuts@,
                i,
                n as int,
                size as int,
            ) by {
                if i < before.len() - 1 {
                    assert(is_run(before, i, n as int, size as int));
                }
            }
        }
    }
    cuts
}

/// No cut is past the end.
proof fn lemma_cuts_bound(cuts: Seq<usize>, n: int, i: int)
    requires
        ascends_to(cuts, n),
        0 <= i < cuts.len(),
    ensures
        cuts[i] <= n,
{
    if i < cuts.len() - 1 {
        assert(cuts[i] < cuts[cuts.len() - 1]);
    }
}

/// A later cut is no lower.
proof fn lemma_cuts_order(cuts: Seq<usize>, n: int, i: int, j: int)
    requires
        ascends_to(cuts, n),
        0 <= i <= j < cuts.len(),
    ensures
        cuts[i] <= cuts[j],
{
    if i < j {
        assert(cuts[i] < cuts[j]);
    }
}

/// From cut `i` on there are as many runs as there are tasks in what is left.
proof fn lemma_cuts_tasks(cuts: Seq<usize>, n: int, size: int, i: int)
    requires
        is_cut(cuts, n, size),
        size > 0,
        0 <= i < cuts.len(),
    ensures
        cuts.len() - 1 - i == tasks_in(n - cuts[i], size as nat),
    decreases cuts.len() - i,
{
    if i < cuts.len() - 1 {
        lemma_cuts_tasks(cuts, n, size, i + 1);
        assert(is_run(cuts, i, n, size));
        assert(cuts[i] < cuts[cuts.len() - 1]);
        assert(tasks_in(n - cuts[i], size as nat) == 1 + tasks_in(n - cuts[i] - size, size as nat));
    }
}

/// `merged` are the outputs of `records`.
pub open spec fn outputs_are<T>(records: Seq<Record<T>>, merged: Seq<Option<T>>) -> bool {
    &&& merged.len() == records.len()
    &&& forall|k: int| 0 <= k < records.len() ==> (#[trigger] records[k]).output == merged[k]
}

/// One more record is one more encoding, where it has an output.
proof fn lemma_steps_push<T>(records: Seq<Record<T>>, record: Record<T>)
    ensures
        steps_of(records.push(record)) == match record.output {
            Some(out) => steps_of(records).push((record.kept, out)),
            None => steps_of(records),
        },
{
    let more = records.push(record);
    assert(more.drop_last() =~= records);
    assert(by_one(more.len(), 0).drop_last() =~= by_one(records.len(), 0));
    assert(by_one(more.len(), 0).last() == 0);
}

/// A worker that counts no more has grown by nothing.
proof fn lemma_grew_nothing(before: TermWork, after: TermWork)
    requires
        forall|t: Tally| #[trigger] before.counted(t) ==> after.counted(t),
    ensures
        grew(before, after, no_tally()),
{
    assert forall|s: Tally| #[trigger] before.counted(s) implies after.counted(s.plus(no_tally())) by {
        assert(s.plus(no_tally()) == s);
    }
}

/// What was counted in two stretches was counted in both together.
proof fn lemma_grew_both(before: TermWork, at: TermWork, after: TermWork, a: Tally, b: Tally)
    requires
        grew(before, at, a),
        grew(at, after, b),
    ensures
        grew(before, after, a.plus(b)),
{
    assert forall|s: Tally| #[trigger] before.counted(s) implies after.counted(s.plus(a.plus(b))) by {
        assert(at.counted(s.plus(a)));
        assert(s.plus(a).plus(b) == s.plus(a.plus(b)));
    }
}

/// One more list joins after the others.
proof fn lemma_joined_push(
    inputs: Seq<(usize, FstValue)>,
    lists: Seq<Vec<Posting>>,
    list: Vec<Posting>,
    remaps: Seq<Seq<Option<FtsDocId>>>,
    n: int,
)
    requires
        n <= lists.len(),
    ensures
        joined(inputs, lists.push(list), remaps, n) == joined(inputs, lists, remaps, n),
    decreases n,
{
    if n > 0 {
        lemma_joined_push(inputs, lists, list, remaps, n - 1);
    }
}

/// The terms between two places in the merge take entries off the dictionaries.
proof fn lemma_entries_between(dicts: Seq<Seq<Entry>>, a: nat, b: nat)
    requires
        a <= b,
        within(dicts, at_first(dicts.len())),
        forall|m: int|
            0 <= m < b ==> !#[trigger] exhausted(dicts, after_terms(dicts, at_first(dicts.len()), m as nat)),
    ensures
        0 <= entries_left(dicts, after_terms(dicts, at_first(dicts.len()), b), dicts.len() as int),
        entries_left(dicts, after_terms(dicts, at_first(dicts.len()), b), dicts.len() as int) + (b - a)
            <= entries_left(dicts, after_terms(dicts, at_first(dicts.len()), a), dicts.len() as int),
{
    let start = at_first(dicts.len());
    let pos = after_terms(dicts, start, a);
    lemma_entries_after(dicts, start, a);
    assert forall|j: int| 0 <= j < b - a implies !#[trigger] exhausted(
        dicts,
        after_terms(dicts, pos, j as nat),
    ) by {
        lemma_after_both(dicts, start, a, j as nat);
        assert(!exhausted(dicts, after_terms(dicts, start, (a + j) as nat)));
    }
    lemma_entries_after(dicts, pos, (b - a) as nat);
    lemma_after_both(dicts, start, a, (b - a) as nat);
}

} // verus!
