//! What a merge of one column comes to: the output of each term, and what is written.
use crate::batch::{most_tasks, BatchLimits};
use crate::counts::MergeCounts;
use crate::dictionary::{Entry, FstValue, FtsError, FtsReader, Posting};
use crate::errors::{is_non_utf8_error, is_read_error, BuildError};
use crate::term_merge::{begins_merge, is_merge, MergedTerm};
use crate::term_walk::{are_dictionaries, read_failed, within_limits};
use crate::term_work::{all_runs, is_arrangement, joined, placeable, FtsDocId, Kept};
use vstd::prelude::*;
use vstd::utf8::{encode_utf8, valid_utf8};

verus! {

/// One merge input: its index, where it has one, and where its rows land in the output.
pub struct SortedInput<R> {
    pub fts: Option<R>,
    /// Input blob doc id to output doc id; `None` drops the row.
    pub remap: Vec<Option<FtsDocId>>,
}

/// The position runs of a term's postings.
#[derive(Clone, Copy, Debug)]
pub enum TermRuns<'a> {
    /// Run values back to back, and where each posting's run starts.
    Values { values: &'a [u32], starts: &'a [usize] },
}

/// A term of the merge, the postings of it that stay, and its output, or `None` where none stays.
pub struct Record<T> {
    pub term: MergedTerm,
    pub kept: Seq<Kept>,
    pub output: Option<T>,
}

/// One encoding: the postings encoded, and what came of them.
pub type Step<T> = (Seq<Kept>, T);

/// A read of a term's postings can end in `out`.
pub open spec fn reads_postings<R: FtsReader>(
    fts: &R,
    column_id: u32,
    term: Seq<u8>,
    value: FstValue,
    out: Result<Vec<Posting>, FtsError>,
) -> bool {
    exists|t: &[u8]|
        t@ == term && #[trigger] call_ensures(R::postings_in, (fts, column_id, t, value), out)
}

/// What the merge of a column is given: the inputs, the worker states, and how states are made and
/// terms encoded.
pub struct Job<R, S, N, E> {
    pub inputs: Seq<SortedInput<R>>,
    pub column_id: u32,
    pub given: Seq<S>,
    pub new_state: N,
    pub encode: E,
}

/// The merge of `column_id` across `inputs`.
pub open spec fn job<R, S, N, E>(
    inputs: Seq<SortedInput<R>>,
    column_id: u32,
    given: Seq<S>,
    new_state: N,
    encode: E,
) -> Job<R, S, N, E> {
    Job { inputs, column_id, given, new_state, encode }
}

impl<R: FtsReader, S, N: Fn() -> S, E> Job<R, S, N, E> {
    /// The index of input `i`.
    pub open spec fn fts(&self, i: int) -> &R {
        &self.inputs[i].fts->0
    }

    /// Where each input's rows land.
    pub open spec fn remaps(&self) -> Seq<Seq<Option<FtsDocId>>> {
        Seq::new(self.inputs.len(), |i: int| self.inputs[i].remap@)
    }

    /// Every list of postings of `term` that one of its inputs hands over names only documents that
    /// the input's remap places, each with its positions in order.
    pub open spec fn placed(&self, term: MergedTerm) -> bool {
        forall|k: int, list: Vec<Posting>|
            0 <= k < term.1.len() && #[trigger] reads_postings(
                self.fts(term.1[k].0 as int),
                self.column_id,
                term.0,
                term.1[k].1,
                Ok(list),
            ) ==> placeable(list@, self.inputs[term.1[k].0 as int].remap@)
    }

    /// Every list of postings that an input hands over for an entry of its dictionary names only
    /// documents that its remap places, each with its positions in order.
    pub open spec fn places_entries(&self, dicts: Seq<Seq<Entry>>) -> bool {
        forall|i: int, k: int, list: Vec<Posting>|
            0 <= i < dicts.len() && 0 <= k < dicts[i].len() && #[trigger] reads_postings(
                self.fts(i),
                self.column_id,
                dicts[i][k].0,
                dicts[i][k].1,
                Ok(list),
            ) ==> placeable(list@, self.inputs[i].remap@)
    }

    /// States can be made, and whatever there is can be encoded.
    pub open spec fn callable<T>(&self) -> bool where
        E: Fn(S, &[(u32, u32)], TermRuns<'_>) -> (S, Result<T, BuildError>),
     {
        &&& self.new_state.requires(())
        &&& forall|s: S, pairs: &[(u32, u32)], runs: TermRuns<'_>| #[trigger]
            self.encode.requires((s, pairs, runs))
    }

    /// A worker starts with `s`: it is one of the states given, or a new one.
    pub open spec fn is_first(&self, s: S) -> bool {
        self.given.contains(s) || self.new_state.ensures((), s)
    }

    /// `through` are the states that a worker passes through in `steps`, each encoding once.
    pub open spec fn leads_through<T>(&self, steps: Seq<Step<T>>, through: Seq<S>) -> bool where
        E: Fn(S, &[(u32, u32)], TermRuns<'_>) -> (S, Result<T, BuildError>),
     {
        &&& through.len() == steps.len() + 1
        &&& forall|k: int|
            0 <= k < steps.len() ==> self.encodes(
                through[k],
                (#[trigger] steps[k]).0,
                through[k + 1],
                Ok(steps[k].1),
            )
    }

    /// The encodings of `steps`, one after another, can lead from the state `from` to `to`.
    pub open spec fn leads<T>(&self, from: S, steps: Seq<Step<T>>, to: S) -> bool where
        E: Fn(S, &[(u32, u32)], TermRuns<'_>) -> (S, Result<T, BuildError>),
     {
        exists|through: Seq<S>| #[trigger]
            self.leads_through(steps, through) && through.first() == from && through.last() == to
    }

    /// `s` comes of a state that a worker starts with, by encodings.
    pub open spec fn reachable<T>(&self, s: S) -> bool where
        E: Fn(S, &[(u32, u32)], TermRuns<'_>) -> (S, Result<T, BuildError>),
     {
        exists|first: S, steps: Seq<Step<T>>| self.is_first(first) && #[trigger] self.leads(first, steps, s)
    }

    /// No encoding leaves the state as it is.
    pub proof fn lemma_leads_none<T>(&self, s: S) where
        E: Fn(S, &[(u32, u32)], TermRuns<'_>) -> (S, Result<T, BuildError>),

        ensures
            self.leads(s, Seq::<Step<T>>::empty(), s),
    {
        assert(self.leads_through(Seq::<Step<T>>::empty(), seq![s]));
        assert(seq![s].first() == s && seq![s].last() == s);
    }

    /// One encoding leads on.
    pub proof fn lemma_leads_one<T>(&self, from: S, step: Step<T>, to: S) where
        E: Fn(S, &[(u32, u32)], TermRuns<'_>) -> (S, Result<T, BuildError>),

        requires
            self.encodes(from, step.0, to, Ok(step.1)),
        ensures
            self.leads(from, seq![step], to),
    {
        assert(self.leads_through(seq![step], seq![from, to]));
        assert(seq![from, to].first() == from && seq![from, to].last() == to);
    }

    /// Encodings that follow others lead on from where they led.
    pub proof fn lemma_leads_both<T>(&self, from: S, a: Seq<Step<T>>, mid: S, b: Seq<Step<T>>, to: S) where
        E: Fn(S, &[(u32, u32)], TermRuns<'_>) -> (S, Result<T, BuildError>),

        requires
            self.leads(from, a, mid),
            self.leads(mid, b, to),
        ensures
            self.leads(from, a + b, to),
    {
        let before = choose|through: Seq<S>| #[trigger]
            self.leads_through(a, through) && through.first() == from && through.last() == mid;
        let after = choose|through: Seq<S>| #[trigger]
            self.leads_through(b, through) && through.first() == mid && through.last() == to;
        let through = before + after.drop_first();
        let n = a.len() as int;
        assert forall|k: int| 0 <= k < (a + b).len() implies self.encodes(
            through[k],
            (#[trigger] (a + b)[k]).0,
            through[k + 1],
            Ok((a + b)[k].1),
        ) by {
            if k < n {
                assert((a + b)[k] == a[k]);
                assert(through[k] == before[k] && through[k + 1] == before[k + 1]);
            } else {
                assert((a + b)[k] == b[k - n]);
                assert(through[k] == after[k - n]);
                assert(through[k + 1] == after[k - n + 1]);
            }
        }
        assert(self.leads_through(a + b, through));
        assert(through.first() == from && through.last() == to);
    }

    /// What encodings lead to from a state of the merge is one of its states.
    pub proof fn lemma_still_reachable<T>(&self, from: S, steps: Seq<Step<T>>, to: S) where
        E: Fn(S, &[(u32, u32)], TermRuns<'_>) -> (S, Result<T, BuildError>),

        requires
            self.reachable::<T>(from),
            self.leads(from, steps, to),
        ensures
            self.reachable::<T>(to),
    {
        let (first, before) = choose|first: S, before: Seq<Step<T>>|
            self.is_first(first) && #[trigger] self.leads(first, before, from);
        self.lemma_leads_both(first, before, from, steps, to);
    }

    /// A state that a worker starts with is one of the merge's.
    pub proof fn lemma_first_reachable<T>(&self, s: S) where
        E: Fn(S, &[(u32, u32)], TermRuns<'_>) -> (S, Result<T, BuildError>),

        requires
            self.is_first(s),
        ensures
            self.reachable::<T>(s),
    {
        self.lemma_leads_none::<T>(s);
    }

    /// Workers that start with the states `first` end with `last`, once worker `who[k]` has merged
    /// record `k`, for every `k` in turn: each record with an output is one encoding, by one
    /// worker, of the postings that stay.
    pub open spec fn worked<T>(&self, first: Seq<S>, records: Seq<Record<T>>, who: Seq<int>, last: Seq<S>) -> bool where
        E: Fn(S, &[(u32, u32)], TermRuns<'_>) -> (S, Result<T, BuildError>),
     {
        &&& last.len() == first.len()
        &&& who.len() == records.len()
        &&& forall|k: int| 0 <= k < who.len() ==> 0 <= #[trigger] who[k] < first.len()
        &&& forall|w: int|
            0 <= w < first.len() ==> self.leads(first[w], share(records, who, w), #[trigger] last[w])
    }

    /// `first` are the states given, and then new ones.
    pub open spec fn starts_with(&self, first: Seq<S>) -> bool {
        &&& self.given.len() <= first.len()
        &&& forall|w: int| 0 <= w < self.given.len() ==> #[trigger] first[w] == self.given[w]
        &&& forall|w: int|
            self.given.len() <= w < first.len() ==> self.new_state.ensures((), #[trigger] first[w])
    }

    /// `handed` are the states given, and new ones where a batch had more tasks than there were
    /// states, each after the encodings of its share of `records`.
    pub open spec fn hands_back<T>(&self, limits: BatchLimits, records: Seq<Record<T>>, handed: Seq<S>) -> bool where
        E: Fn(S, &[(u32, u32)], TermRuns<'_>) -> (S, Result<T, BuildError>),
     {
        &&& handed.len() == self.given.len() || handed.len() <= most_tasks(limits, records.len())
        &&& exists|first: Seq<S>, who: Seq<int>|
            self.starts_with(first) && #[trigger] self.worked(first, records, who, handed)
    }

    /// `lists` are postings of `term` as its inputs can hand them over.
    pub open spec fn lists_read(&self, term: MergedTerm, lists: Seq<Vec<Posting>>) -> bool {
        &&& lists.len() == term.1.len()
        &&& forall|k: int|
            0 <= k < lists.len() ==> reads_postings(
                self.fts(term.1[k].0 as int),
                self.column_id,
                term.0,
                term.1[k].1,
                Ok(#[trigger] lists[k]),
            )
    }

    /// What stays of the postings of `term`, joined in input order.
    pub open spec fn kept(&self, term: MergedTerm, lists: Seq<Vec<Posting>>) -> Seq<Kept> {
        joined(term.1, lists, self.remaps(), term.1.len() as int)
    }

    /// Encoding `kept`, by ascending document and with each posting's run, can turn `state` into
    /// `after` and end in `result`.
    pub open spec fn encodes<T>(
        &self,
        state: S,
        kept: Seq<Kept>,
        after: S,
        result: Result<T, BuildError>,
    ) -> bool where
        E: Fn(S, &[(u32, u32)], TermRuns<'_>) -> (S, Result<T, BuildError>),
     {
        exists|pairs: &[(u32, u32)], values: &[u32], starts: &[usize]|
            is_arrangement(kept, pairs@, starts@) && values@ == all_runs(kept)
                && #[trigger] self.encode.ensures(
                (state, pairs, TermRuns::Values { values, starts }),
                (after, result),
            )
    }

    /// Encoding `kept` with one of the merge's states can end in `out`.
    pub open spec fn encodes_to<T>(&self, kept: Seq<Kept>, out: T) -> bool where
        E: Fn(S, &[(u32, u32)], TermRuns<'_>) -> (S, Result<T, BuildError>),
     {
        exists|s: S, after: S|
            self.reachable::<T>(s) && #[trigger] self.encodes(s, kept, after, Ok(out))
    }

    /// Postings of which `kept` stays can come out as `output`.
    pub open spec fn comes_out<T>(&self, kept: Seq<Kept>, output: Option<T>) -> bool where
        E: Fn(S, &[(u32, u32)], TermRuns<'_>) -> (S, Result<T, BuildError>),
     {
        match output {
            Some(out) => kept.len() > 0 && self.encodes_to(kept, out),
            None => kept.len() == 0,
        }
    }

    /// `kept` can be what stays of the postings of `term`.
    pub open spec fn stays(&self, term: MergedTerm, kept: Seq<Kept>) -> bool {
        exists|lists: Seq<Vec<Posting>>| #[trigger]
            self.lists_read(term, lists) && kept == self.kept(term, lists)
    }

    /// `term` can come out as `output`: `None` exactly when none of its postings stays.
    pub open spec fn merges_to<T>(&self, term: MergedTerm, output: Option<T>) -> bool where
        E: Fn(S, &[(u32, u32)], TermRuns<'_>) -> (S, Result<T, BuildError>),
     {
        exists|kept: Seq<Kept>| #[trigger] self.stays(term, kept) && self.comes_out(kept, output)
    }

    /// The term of `record` can keep its postings and come out as its output.
    pub open spec fn is_record<T>(&self, record: Record<T>) -> bool where
        E: Fn(S, &[(u32, u32)], TermRuns<'_>) -> (S, Result<T, BuildError>),
     {
        self.stays(record.term, record.kept) && self.comes_out(record.kept, record.output)
    }

    /// `term` can be merged.
    pub open spec fn can_merge<T>(&self, term: MergedTerm) -> bool where
        E: Fn(S, &[(u32, u32)], TermRuns<'_>) -> (S, Result<T, BuildError>),
     {
        exists|output: Option<T>| self.merges_to(term, output)
    }

    /// Reading the postings of `term` from its input `k` can end in `out`.
    pub open spec fn reads(&self, term: MergedTerm, k: int, out: Result<Vec<Posting>, FtsError>) -> bool {
        reads_postings(self.fts(term.1[k].0 as int), self.column_id, term.0, term.1[k].1, out)
    }

    /// Reading the postings of `term` from its input `k` can succeed.
    pub open spec fn can_read(&self, term: MergedTerm, k: int) -> bool {
        exists|list: Vec<Posting>| self.reads(term, k, Ok(list))
    }

    /// Reading the postings of `term` from input `k` of its inputs can fail with `e`, and from those
    /// before it succeed.
    pub open spec fn read_fails_at(&self, term: MergedTerm, k: int, e: FtsError) -> bool {
        &&& 0 <= k < term.1.len()
        &&& self.reads(term, k, Err(e))
        &&& forall|j: int| 0 <= j < k ==> #[trigger] self.can_read(term, j)
    }

    /// Reading the postings of `term` from one of its inputs can fail with `error`.
    pub open spec fn read_fails(&self, term: MergedTerm, error: BuildError) -> bool {
        exists|k: int, e: FtsError| #[trigger]
            is_read_error(e, error) && #[trigger] self.read_fails_at(term, k, e)
    }

    /// Encoding the postings of `term` can fail with `error`.
    pub open spec fn encode_fails<T>(&self, term: MergedTerm, error: BuildError) -> bool where
        E: Fn(S, &[(u32, u32)], TermRuns<'_>) -> (S, Result<T, BuildError>),
     {
        exists|kept: Seq<Kept>, s: S, after: S|
            self.stays(term, kept) && kept.len() > 0 && self.reachable::<T>(s)
                && #[trigger] self.encodes::<T>(s, kept, after, Err(error))
    }

    /// Merging `term` can fail with `error`.
    pub open spec fn fails<T>(&self, term: MergedTerm, error: BuildError) -> bool where
        E: Fn(S, &[(u32, u32)], TermRuns<'_>) -> (S, Result<T, BuildError>),
     {
        self.read_fails(term, error) || self.encode_fails::<T>(term, error)
    }

    /// Each record is one that its term can come to, and its term is text.
    pub open spec fn merged<T>(&self, records: Seq<Record<T>>) -> bool where
        E: Fn(S, &[(u32, u32)], TermRuns<'_>) -> (S, Result<T, BuildError>),
     {
        forall|k: int|
            0 <= k < records.len() ==> self.is_record(#[trigger] records[k]) && valid_utf8(
                records[k].term.0,
            )
    }

    /// With the sink at `at`, `term` can be refused with `error` and the sink at `to`: it is not
    /// text, or its output could not be written.
    pub open spec fn refuses<T, W, F: Fn(W, &str, T) -> (W, Result<(), BuildError>)>(
        &self,
        term: MergedTerm,
        write: F,
        at: W,
        to: W,
        error: BuildError,
    ) -> bool where E: Fn(S, &[(u32, u32)], TermRuns<'_>) -> (S, Result<T, BuildError>) {
        ||| to == at && !valid_utf8(term.0) && is_non_utf8_error(error)
        ||| valid_utf8(term.0) && self.write_fails(term, write, at, to, error)
    }

    /// Writing an output of `term` can turn the sink `at` into `to` and fail with `error`.
    pub open spec fn write_fails<T, W, F: Fn(W, &str, T) -> (W, Result<(), BuildError>)>(
        &self,
        term: MergedTerm,
        write: F,
        at: W,
        to: W,
        error: BuildError,
    ) -> bool where E: Fn(S, &[(u32, u32)], TermRuns<'_>) -> (S, Result<T, BuildError>) {
        exists|out: T| #[trigger]
            self.merges_to(term, Some(out)) && writes(write, term.0, out, at, to, Err(error))
    }

    /// The terms of `done` were merged and written, from the sink `from` to `to`.
    pub open spec fn wrote<T, W, F: Fn(W, &str, T) -> (W, Result<(), BuildError>)>(
        &self,
        done: Seq<Record<T>>,
        write: F,
        from: W,
        to: W,
    ) -> bool where E: Fn(S, &[(u32, u32)], TermRuns<'_>) -> (S, Result<T, BuildError>) {
        self.merged(done) && written(write, outputs(done), from, to)
    }

    /// All of `terms` were merged and written, from the sink `from` to `to`.
    pub open spec fn wrote_all<T, W, F: Fn(W, &str, T) -> (W, Result<(), BuildError>)>(
        &self,
        terms: Seq<MergedTerm>,
        write: F,
        from: W,
        to: W,
    ) -> bool where E: Fn(S, &[(u32, u32)], TermRuns<'_>) -> (S, Result<T, BuildError>) {
        exists|records: Seq<Record<T>>|
            terms_of(records) == terms && #[trigger] self.wrote(records, write, from, to)
    }

    /// Every one of `terms` can be merged.
    pub open spec fn all_merge<T>(&self, terms: Seq<MergedTerm>) -> bool where
        E: Fn(S, &[(u32, u32)], TermRuns<'_>) -> (S, Result<T, BuildError>),
     {
        forall|k: int| 0 <= k < terms.len() ==> self.can_merge::<T>(#[trigger] terms[k])
    }

    /// A batch of `terms` ended in `error`, with the sink, once at `from`, at `to`: one of them
    /// failed to merge, and none was written, or all of them can be merged, and one was refused
    /// once those before it were written.
    pub open spec fn batch_fails<T, W, F: Fn(W, &str, T) -> (W, Result<(), BuildError>)>(
        &self,
        terms: Seq<MergedTerm>,
        write: F,
        from: W,
        to: W,
        error: BuildError,
    ) -> bool where E: Fn(S, &[(u32, u32)], TermRuns<'_>) -> (S, Result<T, BuildError>) {
        ||| to == from && self.merge_stops::<T>(terms, error)
        ||| self.all_merge::<T>(terms) && self.write_stops(terms, write, from, to, error)
    }

    /// The first of `terms` that could not be merged failed with `error`.
    pub open spec fn merge_stops<T>(&self, terms: Seq<MergedTerm>, error: BuildError) -> bool where
        E: Fn(S, &[(u32, u32)], TermRuns<'_>) -> (S, Result<T, BuildError>),
     {
        exists|k: int| 0 <= k < terms.len() && #[trigger] self.fails_first::<T>(terms, k, error)
    }

    /// Term `k` failed to merge with `error`, and those before it can be merged.
    pub open spec fn fails_first<T>(&self, terms: Seq<MergedTerm>, k: int, error: BuildError) -> bool where
        E: Fn(S, &[(u32, u32)], TermRuns<'_>) -> (S, Result<T, BuildError>),
     {
        &&& self.fails::<T>(terms[k], error)
        &&& forall|j: int| 0 <= j < k ==> self.can_merge::<T>(#[trigger] terms[j])
    }

    /// The first of `terms` were written, up to one that was refused with `error`: the sink, once
    /// at `from`, is at `to`.
    pub open spec fn write_stops<T, W, F: Fn(W, &str, T) -> (W, Result<(), BuildError>)>(
        &self,
        terms: Seq<MergedTerm>,
        write: F,
        from: W,
        to: W,
        error: BuildError,
    ) -> bool where E: Fn(S, &[(u32, u32)], TermRuns<'_>) -> (S, Result<T, BuildError>) {
        exists|done: Seq<Record<T>>, at: W| #[trigger]
            self.wrote(done, write, from, at) && self.refused_after(terms, done, write, at, to, error)
    }

    /// `done` are the first of `terms`, and the one after them was refused with `error`.
    pub open spec fn refused_after<T, W, F: Fn(W, &str, T) -> (W, Result<(), BuildError>)>(
        &self,
        terms: Seq<MergedTerm>,
        done: Seq<Record<T>>,
        write: F,
        at: W,
        to: W,
        error: BuildError,
    ) -> bool where E: Fn(S, &[(u32, u32)], TermRuns<'_>) -> (S, Result<T, BuildError>) {
        &&& done.len() < terms.len()
        &&& terms_of(done) == terms.take(done.len() as int)
        &&& self.refuses(terms[done.len() as int], write, at, to, error)
    }
}

/// The terms of `records`.
pub open spec fn terms_of<T>(records: Seq<Record<T>>) -> Seq<MergedTerm> {
    Seq::new(records.len(), |k: int| records[k].term)
}

/// The outputs of `records` that there are, each with its term's bytes.
pub open spec fn outputs<T>(records: Seq<Record<T>>) -> Seq<(Seq<u8>, T)>
    decreases records.len(),
{
    if records.len() == 0 {
        Seq::empty()
    } else {
        let fewer = outputs(records.drop_last());
        match records.last().output {
            Some(out) => fewer.push((records.last().term.0, out)),
            None => fewer,
        }
    }
}

/// The encodings of the records that worker `w` merged, in turn.
pub open spec fn share<T>(records: Seq<Record<T>>, who: Seq<int>, w: int) -> Seq<Step<T>>
    decreases records.len(),
{
    if records.len() == 0 {
        Seq::empty()
    } else {
        let fewer = share(records.drop_last(), who.drop_last(), w);
        match records.last().output {
            Some(out) if who.last() == w => fewer.push((records.last().kept, out)),
            _ => fewer,
        }
    }
}

/// The encodings of all records, in turn.
pub open spec fn steps_of<T>(records: Seq<Record<T>>) -> Seq<Step<T>> {
    share(records, by_one(records.len(), 0), 0)
}

/// One worker for each of `n` records.
pub open spec fn by_one(n: nat, w: int) -> Seq<int> {
    Seq::new(n, |k: int| w)
}

/// The share of two lists of records is that of the first, then that of the second.
pub proof fn lemma_share_both<T>(
    a: Seq<Record<T>>,
    who_a: Seq<int>,
    b: Seq<Record<T>>,
    who_b: Seq<int>,
    w: int,
)
    requires
        who_a.len() == a.len(),
        who_b.len() == b.len(),
    ensures
        share(a + b, who_a + who_b, w) == share(a, who_a, w) + share(b, who_b, w),
    decreases b.len(),
{
    if b.len() == 0 {
        assert(a + b =~= a);
        assert(who_a + who_b =~= who_a);
        assert(share(a, who_a, w) + share(b, who_b, w) =~= share(a, who_a, w));
    } else {
        lemma_share_both(a, who_a, b.drop_last(), who_b.drop_last(), w);
        assert((a + b).drop_last() =~= a + b.drop_last());
        assert((who_a + who_b).drop_last() =~= who_a + who_b.drop_last());
        assert((a + b).last() == b.last() && (who_a + who_b).last() == who_b.last());
        assert(share(a + b, who_a + who_b, w) =~= share(a, who_a, w) + share(b, who_b, w));
    }
}

/// Records that one worker merged are its share whole, and no other's.
pub proof fn lemma_share_of_one<T>(records: Seq<Record<T>>, v: int, w: int)
    ensures
        share(records, by_one(records.len(), v), w) == if v == w {
            steps_of(records)
        } else {
            Seq::empty()
        },
    decreases records.len(),
{
    if records.len() > 0 {
        lemma_share_of_one(records.drop_last(), v, w);
        assert(by_one(records.len(), v).drop_last() =~= by_one((records.len() - 1) as nat, v));
        assert(by_one(records.len(), 0).drop_last() =~= by_one((records.len() - 1) as nat, 0));
        assert(by_one(records.len(), v).last() == v);
        assert(by_one(records.len(), 0).last() == 0);
    }
}

/// A worker who merged none of the records has no share of them.
pub proof fn lemma_share_none<T>(records: Seq<Record<T>>, who: Seq<int>, w: int)
    requires
        who.len() == records.len(),
        forall|k: int| 0 <= k < who.len() ==> #[trigger] who[k] != w,
    ensures
        share(records, who, w) == Seq::<Step<T>>::empty(),
    decreases records.len(),
{
    if records.len() > 0 {
        let fewer = who.drop_last();
        assert forall|k: int| 0 <= k < fewer.len() implies #[trigger] fewer[k] != w by {
            assert(fewer[k] == who[k]);
        }
        lemma_share_none(records.drop_last(), fewer, w);
        assert(who[who.len() - 1] == who.last());
    }
}

/// Writing `output` for a term can turn the sink `from` into `to` and end in `result`.
pub open spec fn writes<T, W, F: Fn(W, &str, T) -> (W, Result<(), BuildError>)>(
    write: F,
    term: Seq<u8>,
    output: T,
    from: W,
    to: W,
    result: Result<(), BuildError>,
) -> bool {
    exists|text: &str|
        encode_utf8(text@) == term && #[trigger] write.ensures((from, text, output), (to, result))
}

/// `sinks` are what the sink is before, between and after writing `outs` one after another.
pub open spec fn writes_through<T, W, F: Fn(W, &str, T) -> (W, Result<(), BuildError>)>(
    write: F,
    outs: Seq<(Seq<u8>, T)>,
    sinks: Seq<W>,
) -> bool {
    &&& sinks.len() == outs.len() + 1
    &&& forall|k: int|
        0 <= k < outs.len() ==> writes(
            write,
            (#[trigger] outs[k]).0,
            outs[k].1,
            sinks[k],
            sinks[k + 1],
            Ok(()),
        )
}

/// Writing `outs` one after another can turn the sink `from` into `to`.
pub open spec fn written<T, W, F: Fn(W, &str, T) -> (W, Result<(), BuildError>)>(
    write: F,
    outs: Seq<(Seq<u8>, T)>,
    from: W,
    to: W,
) -> bool {
    exists|sinks: Seq<W>| #[trigger]
        writes_through(write, outs, sinks) && sinks.first() == from && sinks.last() == to
}

/// Writing nothing leaves the sink as it is.
pub proof fn lemma_written_none<T, W, F: Fn(W, &str, T) -> (W, Result<(), BuildError>)>(
    write: F,
    from: W,
)
    ensures
        written(write, Seq::<(Seq<u8>, T)>::empty(), from, from),
{
    assert(writes_through(write, Seq::<(Seq<u8>, T)>::empty(), seq![from]));
}

/// Writing one more output goes on from where the others ended.
pub proof fn lemma_written_push<T, W, F: Fn(W, &str, T) -> (W, Result<(), BuildError>)>(
    write: F,
    outs: Seq<(Seq<u8>, T)>,
    out: (Seq<u8>, T),
    from: W,
    mid: W,
    to: W,
)
    requires
        written(write, outs, from, mid),
        writes(write, out.0, out.1, mid, to, Ok(())),
    ensures
        written(write, outs.push(out), from, to),
{
    assert(writes_through(write, seq![out], seq![mid, to]));
    assert(seq![mid, to].first() == mid && seq![mid, to].last() == to);
    lemma_written_both(write, outs, seq![out], from, mid, to);
    assert(outs + seq![out] =~= outs.push(out));
}

/// Two lists of outputs written one after the other are written as one.
pub proof fn lemma_written_both<T, W, F: Fn(W, &str, T) -> (W, Result<(), BuildError>)>(
    write: F,
    a: Seq<(Seq<u8>, T)>,
    b: Seq<(Seq<u8>, T)>,
    from: W,
    mid: W,
    to: W,
)
    requires
        written(write, a, from, mid),
        written(write, b, mid, to),
    ensures
        written(write, a + b, from, to),
{
    let before = choose|sinks: Seq<W>| #[trigger]
        writes_through(write, a, sinks) && sinks.first() == from && sinks.last() == mid;
    let after = choose|sinks: Seq<W>| #[trigger]
        writes_through(write, b, sinks) && sinks.first() == mid && sinks.last() == to;
    let sinks = before + after.drop_first();
    let n = a.len() as int;
    assert forall|k: int| 0 <= k < (a + b).len() implies writes(
        write,
        (#[trigger] (a + b)[k]).0,
        (a + b)[k].1,
        sinks[k],
        sinks[k + 1],
        Ok(()),
    ) by {
        if k < n {
            assert((a + b)[k] == a[k]);
            assert(sinks[k] == before[k] && sinks[k + 1] == before[k + 1]);
        } else {
            assert((a + b)[k] == b[k - n]);
            assert(sinks[k] == after[k - n]);
            assert(sinks[k + 1] == after[k - n + 1]);
        }
    }
    assert(writes_through(write, a + b, sinks));
    assert(sinks.first() == from && sinks.last() == to);
}

/// The outputs of two lists of records are those of the first, then those of the second.
pub proof fn lemma_outputs_both<T>(a: Seq<Record<T>>, b: Seq<Record<T>>)
    ensures
        outputs(a + b) == outputs(a) + outputs(b),
    decreases b.len(),
{
    if b.len() == 0 {
        assert(a + b =~= a);
        assert(outputs(a) + outputs(b) =~= outputs(a));
    } else {
        lemma_outputs_both(a, b.drop_last());
        assert((a + b).drop_last() =~= a + b.drop_last());
        assert((a + b).last() == b.last());
        assert(outputs(a + b) =~= outputs(a) + outputs(b));
    }
}

/// The index of each input.
pub open spec fn readers_of<'a, R>(inputs: Seq<SortedInput<R>>) -> Seq<&'a R> {
    Seq::new(inputs.len(), |i: int| &inputs[i].fts->0)
}

/// Every input has an index.
pub open spec fn all_indexed<R>(inputs: Seq<SortedInput<R>>) -> bool {
    forall|i: int| 0 <= i < inputs.len() ==> (#[trigger] inputs[i]).fts is Some
}

impl<R: FtsReader, S, N: Fn() -> S, E> Job<R, S, N, E> {
    /// `dicts` are the dictionaries of the column.
    pub open spec fn dictionaries(&self, dicts: Seq<Seq<Entry>>) -> bool {
        are_dictionaries(readers_of(self.inputs), self.column_id, dicts)
    }

    /// The column's dictionaries are in term order.
    pub open spec fn in_term_order(&self) -> bool {
        exists|dicts: Seq<Seq<Entry>>| self.dictionaries(dicts)
    }

    /// The column's dictionaries are in term order, and what is read of their entries can be
    /// placed.
    pub open spec fn readable(&self) -> bool {
        exists|dicts: Seq<Seq<Entry>>| #[trigger] self.dictionaries(dicts) && self.places_entries(dicts)
    }

    /// `terms` is the whole merge of the column's dictionaries.
    pub open spec fn whole(&self, terms: Seq<MergedTerm>) -> bool {
        forall|dicts: Seq<Seq<Entry>>| #[trigger] self.dictionaries(dicts) ==> is_merge(dicts, terms)
    }

    /// `terms` is the first terms of the merge of the column's dictionaries.
    pub open spec fn begins(&self, terms: Seq<MergedTerm>) -> bool {
        forall|dicts: Seq<Seq<Entry>>| #[trigger] self.dictionaries(dicts) ==> begins_merge(dicts, terms)
    }

    /// Every term of the column was merged and written, from the sink `from` to `to`, and the
    /// workers' states are `handed` back.
    pub open spec fn completed<T, W, F: Fn(W, &str, T) -> (W, Result<(), BuildError>)>(
        &self,
        limits: BatchLimits,
        write: F,
        from: W,
        to: W,
        handed: Seq<S>,
        counts: MergeCounts,
    ) -> bool where E: Fn(S, &[(u32, u32)], TermRuns<'_>) -> (S, Result<T, BuildError>) {
        exists|records: Seq<Record<T>>|
            self.whole(terms_of(records)) && #[trigger] self.wrote(records, write, from, to)
                && self.hands_back(limits, records, handed) && counts.count(records)
    }

    /// The merge ended in `error`, with the sink, once at `from`, at `to`: after batches of the
    /// first terms were written a dictionary could not be read, or the batch after them failed.
    pub open spec fn broke_off<T, W, F: Fn(W, &str, T) -> (W, Result<(), BuildError>)>(
        &self,
        limits: BatchLimits,
        write: F,
        from: W,
        to: W,
        error: BuildError,
    ) -> bool where E: Fn(S, &[(u32, u32)], TermRuns<'_>) -> (S, Result<T, BuildError>) {
        exists|done: Seq<MergedTerm>, next: Seq<MergedTerm>, at: W| #[trigger]
            self.begins(done + next) && #[trigger] self.wrote_all(done, write, from, at) && self.ends_in(
                limits,
                next,
                write,
                at,
                to,
                error,
            )
    }

    /// With the sink at `at`, the merge ended in `error`: a dictionary could not be read, or the
    /// batch `next`, which is no larger than `limits` let it be, failed.
    pub open spec fn ends_in<T, W, F: Fn(W, &str, T) -> (W, Result<(), BuildError>)>(
        &self,
        limits: BatchLimits,
        next: Seq<MergedTerm>,
        write: F,
        at: W,
        to: W,
        error: BuildError,
    ) -> bool where E: Fn(S, &[(u32, u32)], TermRuns<'_>) -> (S, Result<T, BuildError>) {
        ||| to == at && self.walk_fails(error)
        ||| within_limits(next, limits) && self.batch_fails(next, write, at, to, error)
    }

    /// Reading the dictionary of an input can fail with `error`.
    pub open spec fn walk_fails(&self, error: BuildError) -> bool {
        exists|i: int| 0 <= i < self.inputs.len() && read_failed(
            #[trigger] self.fts(i),
            self.column_id,
            error,
        )
    }

    /// Writing no term leaves the sink as it is.
    pub proof fn lemma_wrote_none<T, W, F: Fn(W, &str, T) -> (W, Result<(), BuildError>)>(
        &self,
        write: F,
        from: W,
    ) where E: Fn(S, &[(u32, u32)], TermRuns<'_>) -> (S, Result<T, BuildError>)
        ensures
            self.wrote_all(Seq::<MergedTerm>::empty(), write, from, from),
    {
        let none = Seq::<Record<T>>::empty();
        lemma_written_none::<T, W, F>(write, from);
        assert(outputs(none) =~= Seq::<(Seq<u8>, T)>::empty());
        assert(self.wrote(none, write, from, from));
        assert(terms_of(none) =~= Seq::<MergedTerm>::empty());
    }

    /// Records written after others are written with them.
    pub proof fn lemma_wrote_join<T, W, F: Fn(W, &str, T) -> (W, Result<(), BuildError>)>(
        &self,
        before: Seq<Record<T>>,
        after: Seq<Record<T>>,
        write: F,
        from: W,
        mid: W,
        to: W,
    ) where E: Fn(S, &[(u32, u32)], TermRuns<'_>) -> (S, Result<T, BuildError>)
        requires
            self.wrote(before, write, from, mid),
            self.wrote(after, write, mid, to),
        ensures
            self.wrote(before + after, write, from, to),
    {
        lemma_outputs_both(before, after);
        lemma_written_both(write, outputs(before), outputs(after), from, mid, to);
        let both = before + after;
        assert forall|k: int| 0 <= k < both.len() implies self.is_record(#[trigger] both[k])
            && valid_utf8(both[k].term.0) by {
            if k < before.len() {
                assert(both[k] == before[k]);
            } else {
                assert(both[k] == after[k - before.len()]);
            }
        }
    }

    /// Work that goes on from where other work ended is one piece of work.
    pub proof fn lemma_worked_both<T>(
        &self,
        first: Seq<S>,
        a: Seq<Record<T>>,
        who_a: Seq<int>,
        mid: Seq<S>,
        new: Seq<S>,
        b: Seq<Record<T>>,
        who_b: Seq<int>,
        last: Seq<S>,
    ) where E: Fn(S, &[(u32, u32)], TermRuns<'_>) -> (S, Result<T, BuildError>)
        requires
            self.worked(first, a, who_a, mid),
            self.worked(mid + new, b, who_b, last),
        ensures
            self.worked(first + new, a + b, who_a + who_b, last),
    {
        let all = first + new;
        let n = first.len() as int;
        assert forall|w: int| 0 <= w < all.len() implies self.leads(
            all[w],
            share(a + b, who_a + who_b, w),
            #[trigger] last[w],
        ) by {
            lemma_share_both(a, who_a, b, who_b, w);
            assert(self.leads((mid + new)[w], share(b, who_b, w), last[w]));
            if w < n {
                assert(self.leads(first[w], share(a, who_a, w), mid[w]));
                self.lemma_leads_both(first[w], share(a, who_a, w), mid[w], share(b, who_b, w), last[w]);
            } else {
                assert forall|k: int| 0 <= k < who_a.len() implies #[trigger] who_a[k] != w by {
                    assert(who_a[k] < n);
                }
                lemma_share_none(a, who_a, w);
                assert(share(a + b, who_a + who_b, w) =~= share(b, who_b, w));
                assert((mid + new)[w] == all[w]);
            }
        }
        assert forall|k: int| 0 <= k < (who_a + who_b).len() implies 0 <= #[trigger] (who_a + who_b)[k]
            < all.len() by {
            if k < who_a.len() {
                assert(0 <= who_a[k] < n);
            } else {
                assert(0 <= who_b[k - who_a.len()] < (mid + new).len());
            }
        }
    }

    /// Work that one worker takes on is work of them all.
    pub proof fn lemma_worked_more<T>(
        &self,
        first: Seq<S>,
        records: Seq<Record<T>>,
        who: Seq<int>,
        last: Seq<S>,
        v: int,
        more: Seq<Record<T>>,
        to: S,
    ) where E: Fn(S, &[(u32, u32)], TermRuns<'_>) -> (S, Result<T, BuildError>)
        requires
            self.worked(first, records, who, last),
            0 <= v < last.len(),
            self.leads(last[v], steps_of(more), to),
        ensures
            self.worked(first, records + more, who + by_one(more.len(), v), last.update(v, to)),
    {
        let mine = by_one(more.len(), v);
        let after = last.update(v, to);
        assert forall|w: int| 0 <= w < first.len() implies self.leads(
            first[w],
            share(records + more, who + mine, w),
            #[trigger] after[w],
        ) by {
            lemma_share_both(records, who, more, mine, w);
            lemma_share_of_one(more, v, w);
            assert(self.leads(first[w], share(records, who, w), last[w]));
            if w == v {
                self.lemma_leads_both(first[w], share(records, who, w), last[w], steps_of(more), to);
            } else {
                assert(share(records, who, w) + Seq::<Step<T>>::empty() =~= share(records, who, w));
            }
        }
        assert forall|k: int| 0 <= k < (who + mine).len() implies 0 <= #[trigger] (who + mine)[k]
            < first.len() by {
            if k < who.len() {
                assert(0 <= who[k] < first.len());
            }
        }
    }

    /// Workers that have merged nothing have the states they started with.
    pub proof fn lemma_worked_none<T>(&self, first: Seq<S>) where
        E: Fn(S, &[(u32, u32)], TermRuns<'_>) -> (S, Result<T, BuildError>),

        ensures
            self.worked(first, Seq::<Record<T>>::empty(), Seq::empty(), first),
    {
        assert forall|w: int| 0 <= w < first.len() implies self.leads(
            first[w],
            share(Seq::<Record<T>>::empty(), Seq::empty(), w),
            #[trigger] first[w],
        ) by {
            self.lemma_leads_none::<T>(first[w]);
        }
    }
}

} // verus!
