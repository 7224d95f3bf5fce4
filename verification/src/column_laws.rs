//! What holds of a column's merge as a whole.
use crate::batch::{lemma_hinted_both, most_tasks, total_hinted, BatchLimits};
use crate::counts::{total_inputs, MergeCounts};
use crate::dictionary::{ascending_terms, Entry, FstValue, FtsReader, Posting};
use crate::errors::BuildError;
use crate::merge_job::{
    outputs, readers_of, reads_postings, share, terms_of, writes, writes_through, written, Job, Record,
    Step, TermRuns,
};
use crate::merge_laws::{
    all_ascending, merge_holds_only_terms, merge_is_unique, merged_terms_ascend,
};
use crate::posting_laws::arrangement_is_unique;
use crate::term_merge::{
    after_terms, at_first, begins_merge, entries_left, exhausted, has_head, holders, is_merge,
    lemma_moved_on_within, moved_on, next_term, nth_term, within, MergedTerm,
};
use crate::term_order::term_lt;
use crate::term_walk::{dictionary_of, inputs_of, within_limits};
use crate::term_work::{all_runs, is_arrangement, Kept};
use vstd::prelude::*;
use vstd::utf8::valid_utf8;

verus! {

/// Where an output comes from: one of the records, and not before those of earlier outputs.
proof fn lemma_output_from<T>(records: Seq<Record<T>>, k: int) -> (j: int)
    requires
        0 <= k < outputs(records).len(),
    ensures
        0 <= j < records.len(),
        records[j].term.0 == outputs(records)[k].0,
        records[j].output == Some(outputs(records)[k].1),
        outputs(records.take(j)) == outputs(records).take(k),
    decreases records.len(),
{
    let fewer = outputs(records.drop_last());
    if k < fewer.len() {
        let j = lemma_output_from(records.drop_last(), k);
        assert(records.drop_last().take(j) =~= records.take(j));
        assert(fewer.take(k) =~= outputs(records).take(k));
        j
    } else {
        let j = records.len() - 1;
        assert(records.take(j) =~= records.drop_last());
        assert(outputs(records).take(k) =~= fewer);
        j
    }
}

/// The outputs of more records are as many or more.
proof fn lemma_outputs_grow<T>(records: Seq<Record<T>>, a: int, b: int)
    requires
        0 <= a <= b <= records.len(),
    ensures
        outputs(records.take(a)).len() <= outputs(records.take(b)).len(),
    decreases b - a,
{
    if a < b {
        lemma_outputs_grow(records, a, b - 1);
        assert(records.take(b).drop_last() =~= records.take(b - 1));
    }
}

/// Terms are written in term order, none twice, however far the merge went.
pub proof fn written_terms_ascend<T>(dicts: Seq<Seq<Entry>>, records: Seq<Record<T>>, a: int, b: int)
    requires
        all_ascending(dicts),
        begins_merge(dicts, terms_of(records)),
        0 <= a < b < outputs(records).len(),
    ensures
        term_lt(outputs(records)[a].0, outputs(records)[b].0),
{
    let i = lemma_output_from(records, a);
    let j = lemma_output_from(records, b);
    if j <= i {
        lemma_outputs_grow(records, j, i);
    }
    merged_terms_ascend(dicts, terms_of(records), i, j);
    assert(terms_of(records)[i] == records[i].term);
    assert(terms_of(records)[j] == records[j].term);
}

/// A term that has an output has it written.
pub proof fn every_output_is_written<T>(records: Seq<Record<T>>, j: int)
    requires
        0 <= j < records.len(),
    ensures
        records[j].output matches Some(out) ==> outputs(records).contains((records[j].term.0, out)),
    decreases records.len(),
{
    let fewer = records.drop_last();
    if j < fewer.len() {
        every_output_is_written(fewer, j);
        assert(fewer[j] == records[j]);
        if let Some(out) = records[j].output {
            let k = choose|k: int|
                0 <= k < outputs(fewer).len() && outputs(fewer)[k] == (records[j].term.0, out);
            assert(outputs(records)[k] == (records[j].term.0, out));
        }
    } else if let Some(out) = records[j].output {
        assert(outputs(records).last() == (records[j].term.0, out));
    }
}

/// The entries of the first `n` dictionaries, all together.
pub open spec fn entry_count(dicts: Seq<Seq<Entry>>, n: int) -> nat
    decreases n,
{
    if n <= 0 {
        0
    } else {
        entry_count(dicts, n - 1) + dicts[n - 1].len()
    }
}

/// Before anything was walked all entries are left.
proof fn lemma_all_left(dicts: Seq<Seq<Entry>>, n: int)
    requires
        0 <= n <= dicts.len(),
    ensures
        entries_left(dicts, at_first(dicts.len()), n) == entry_count(dicts, n),
    decreases n,
{
    if n > 0 {
        lemma_all_left(dicts, n - 1);
    }
}

/// Once everything was walked none is left.
proof fn lemma_none_left(dicts: Seq<Seq<Entry>>, pos: Seq<int>, n: int)
    requires
        within(dicts, pos),
        exhausted(dicts, pos),
        0 <= n <= dicts.len(),
    ensures
        entries_left(dicts, pos, n) == 0,
    decreases n,
{
    if n > 0 {
        lemma_none_left(dicts, pos, n - 1);
        assert(!has_head(dicts, pos, n - 1));
        assert(0 <= pos[n - 1] <= dicts[n - 1].len());
    }
}

/// Moving on from a term takes one entry off every input that holds it.
proof fn lemma_taken_off(dicts: Seq<Seq<Entry>>, pos: Seq<int>, term: Seq<u8>, n: int)
    requires
        within(dicts, pos),
        0 <= n <= dicts.len(),
    ensures
        entries_left(dicts, moved_on(dicts, pos, term, dicts.len() as int), n) == entries_left(dicts, pos, n)
            - holders(dicts, pos, term, n).len(),
    decreases n,
{
    if n > 0 {
        lemma_taken_off(dicts, pos, term, n - 1);
    }
}

/// The inputs of the first `m` terms are the entries that they took off the dictionaries.
proof fn lemma_inputs_taken<T>(dicts: Seq<Seq<Entry>>, records: Seq<Record<T>>, m: int)
    requires
        begins_merge(dicts, terms_of(records)),
        0 <= m <= records.len(),
    ensures
        ({
            let start = at_first(dicts.len());
            let pos = after_terms(dicts, start, m as nat);
            &&& within(dicts, pos)
            &&& total_inputs(records.take(m)) == entries_left(dicts, start, dicts.len() as int)
                - entries_left(dicts, pos, dicts.len() as int)
        }),
    decreases m,
{
    let start = at_first(dicts.len());
    let n = dicts.len() as int;
    if m == 0 {
        assert forall|i: int| 0 <= i < dicts.len() implies 0 <= #[trigger] start[i] <= dicts[i].len() by {}
    } else {
        lemma_inputs_taken(dicts, records, m - 1);
        let before = after_terms(dicts, start, (m - 1) as nat);
        let term = next_term(dicts, before);
        lemma_moved_on_within(dicts, before, term, n);
        lemma_taken_off(dicts, before, term, n);
        assert(records.take(m).drop_last() =~= records.take(m - 1));
        assert(records.take(m).last() == records[m - 1]);
        assert(terms_of(records)[m - 1] == records[m - 1].term);
        assert(terms_of(records)[m - 1] == nth_term(dicts, start, (m - 1) as nat));
    }
}

/// The inputs of a whole merge's terms, those of terms that left the output among them, are as many
/// as the dictionaries have entries.
pub proof fn every_entry_is_an_input<T>(dicts: Seq<Seq<Entry>>, records: Seq<Record<T>>)
    requires
        is_merge(dicts, terms_of(records)),
    ensures
        total_inputs(records) == entry_count(dicts, dicts.len() as int),
{
    let n = dicts.len() as int;
    lemma_inputs_taken(dicts, records, records.len() as int);
    assert(records.take(records.len() as int) =~= records);
    lemma_all_left(dicts, n);
    lemma_none_left(dicts, after_terms(dicts, at_first(dicts.len()), records.len()), n);
}

/// The posting bytes of one of the terms are no more than those of all of them.
proof fn lemma_hinted_part(terms: Seq<MergedTerm>, k: int)
    requires
        0 <= k < terms.len(),
    ensures
        total_hinted(terms[k].1) <= total_hinted(inputs_of(terms)),
    decreases terms.len(),
{
    lemma_hinted_both(inputs_of(terms.drop_last()), terms.last().1);
    if k < terms.len() - 1 {
        lemma_hinted_part(terms.drop_last(), k);
    }
}

/// A term whose values announce more posting bytes than a batch may have is a batch of its own.
pub proof fn a_large_term_is_a_batch_of_its_own(batch: Seq<MergedTerm>, limits: BatchLimits, k: int)
    requires
        within_limits(batch, limits),
        0 <= k < batch.len(),
        total_hinted(batch[k].1) > limits.posting_bytes,
    ensures
        batch.len() == 1,
{
    lemma_hinted_part(batch, k);
}

/// The encodings of the first `n` workers, all together.
pub open spec fn encodings<T>(records: Seq<Record<T>>, who: Seq<int>, n: int) -> nat
    decreases n,
{
    if n <= 0 {
        0
    } else {
        encodings(records, who, n - 1) + share(records, who, n - 1).len()
    }
}

/// There are as many encodings as outputs, whoever merged which: each term of which a posting stays
/// is encoded once.
pub proof fn each_output_is_encoded_once<T>(records: Seq<Record<T>>, who: Seq<int>, n: int)
    requires
        who.len() == records.len(),
        forall|k: int| 0 <= k < who.len() ==> 0 <= #[trigger] who[k] < n,
    ensures
        encodings(records, who, n) == outputs(records).len(),
    decreases records.len(),
{
    if records.len() == 0 {
        lemma_no_encodings(records, who, n);
    } else {
        let fewer = who.drop_last();
        assert forall|k: int| 0 <= k < fewer.len() implies 0 <= #[trigger] fewer[k] < n by {
            assert(fewer[k] == who[k]);
        }
        each_output_is_encoded_once(records.drop_last(), fewer, n);
        assert(who[who.len() - 1] == who.last());
        lemma_encodings_step(records, who, n);
    }
}

proof fn lemma_no_encodings<T>(records: Seq<Record<T>>, who: Seq<int>, n: int)
    requires
        records.len() == 0,
    ensures
        encodings(records, who, n) == 0,
    decreases n,
{
    if n > 0 {
        lemma_no_encodings(records, who, n - 1);
    }
}

/// One more record with an output is one more encoding, of one worker.
proof fn lemma_encodings_step<T>(records: Seq<Record<T>>, who: Seq<int>, n: int)
    requires
        records.len() > 0,
        who.len() == records.len(),
    ensures
        encodings(records, who, n) == encodings(records.drop_last(), who.drop_last(), n) + if 0
            <= who.last() < n && records.last().output is Some {
            1nat
        } else {
            0
        },
    decreases n,
{
    if n > 0 {
        lemma_encodings_step(records, who, n - 1);
    }
}

impl<R: FtsReader, S, N: Fn() -> S, E> Job<R, S, N, E> {
    /// An input hands over the same postings whenever it is asked for them.
    pub open spec fn reads_agree(&self) -> bool {
        forall|i: int, term: Seq<u8>, value: FstValue, a: Vec<Posting>, b: Vec<Posting>|
            0 <= i < self.inputs.len() && #[trigger] reads_postings(
                self.fts(i),
                self.column_id,
                term,
                value,
                Ok(a),
            ) && #[trigger] reads_postings(self.fts(i), self.column_id, term, value, Ok(b)) ==> a == b
    }

    /// Encoding these postings, whatever the state, can yield `out`.
    pub open spec fn yields<T>(
        &self,
        pairs: Seq<(u32, u32)>,
        values: Seq<u32>,
        starts: Seq<usize>,
        out: T,
    ) -> bool where E: Fn(S, &[(u32, u32)], TermRuns<'_>) -> (S, Result<T, BuildError>) {
        exists|s: S, p: &[(u32, u32)], v: &[u32], st: &[usize], after: S|
            p@ == pairs && v@ == values && st@ == starts && #[trigger] self.encode.ensures(
                (s, p, TermRuns::Values { values: v, starts: st }),
                (after, Ok(out)),
            )
    }

    /// What encoding yields depends on the postings alone.
    pub open spec fn encodings_agree<T>(&self) -> bool where
        E: Fn(S, &[(u32, u32)], TermRuns<'_>) -> (S, Result<T, BuildError>),
     {
        forall|pairs: Seq<(u32, u32)>, values: Seq<u32>, starts: Seq<usize>, a: T, b: T| #[trigger]
            self.yields(pairs, values, starts, a) && #[trigger] self.yields(pairs, values, starts, b) ==> a
                == b
    }

    /// Postings come out as one output, where encodings agree.
    proof fn lemma_one_encoding<T>(&self, kept: Seq<Kept>, a: T, b: T) where
        E: Fn(S, &[(u32, u32)], TermRuns<'_>) -> (S, Result<T, BuildError>),

        requires
            self.encodings_agree::<T>(),
            self.encodes_to(kept, a),
            self.encodes_to(kept, b),
        ensures
            a == b,
    {
        let (pairs_a, starts_a) = self.lemma_yields(kept, a);
        let (pairs_b, starts_b) = self.lemma_yields(kept, b);
        arrangement_is_unique(kept, pairs_a, starts_a, pairs_b, starts_b);
        assert(self.yields(pairs_a, all_runs(kept), starts_a, a));
        assert(self.yields(pairs_a, all_runs(kept), starts_a, b));
    }

    /// An encoding of postings is of an arrangement of them.
    proof fn lemma_yields<T>(&self, kept: Seq<Kept>, out: T) -> (r: (Seq<(u32, u32)>, Seq<usize>)) where
        E: Fn(S, &[(u32, u32)], TermRuns<'_>) -> (S, Result<T, BuildError>),

        requires
            self.encodes_to(kept, out),
        ensures
            is_arrangement(kept, r.0, r.1),
            self.yields(r.0, all_runs(kept), r.1, out),
    {
        let (s, after) = choose|s: S, after: S|
            self.reachable::<T>(s) && #[trigger] self.encodes(s, kept, after, Ok(out));
        let result: Result<T, BuildError> = Ok(out);
        assert(self.encodes(s, kept, after, result));
        let (pairs, values, starts) = choose|pairs: &[(u32, u32)], values: &[u32], starts: &[usize]|
            is_arrangement(kept, pairs@, starts@) && values@ == all_runs(kept)
                && #[trigger] self.encode.ensures(
                (s, pairs, TermRuns::Values { values, starts }),
                (after, result),
            );
        (pairs@, starts@)
    }

    /// One list of postings stays of a term, where reads agree.
    pub proof fn what_stays_is_unique(&self, term: MergedTerm, a: Seq<Kept>, b: Seq<Kept>)
        requires
            self.reads_agree(),
            forall|k: int| 0 <= k < term.1.len() ==> (#[trigger] term.1[k]).0 < self.inputs.len(),
            self.stays(term, a),
            self.stays(term, b),
        ensures
            a == b,
    {
        let lists_a = choose|lists: Seq<Vec<Posting>>| #[trigger]
            self.lists_read(term, lists) && a == self.kept(term, lists);
        let lists_b = choose|lists: Seq<Vec<Posting>>| #[trigger]
            self.lists_read(term, lists) && b == self.kept(term, lists);
        assert forall|k: int| 0 <= k < lists_a.len() implies lists_a[k] == #[trigger] lists_b[k] by {
            let i = term.1[k].0 as int;
            assert(reads_postings(self.fts(i), self.column_id, term.0, term.1[k].1, Ok(lists_a[k])));
            assert(reads_postings(self.fts(i), self.column_id, term.0, term.1[k].1, Ok(lists_b[k])));
        }
        assert(lists_a =~= lists_b);
    }

    /// A term comes out as one output, where reads and encodings agree.
    pub proof fn term_output_is_unique<T>(&self, a: Record<T>, b: Record<T>) where
        E: Fn(S, &[(u32, u32)], TermRuns<'_>) -> (S, Result<T, BuildError>),

        requires
            self.reads_agree(),
            self.encodings_agree::<T>(),
            a.term == b.term,
            forall|k: int| 0 <= k < a.term.1.len() ==> (#[trigger] a.term.1[k]).0 < self.inputs.len(),
            self.is_record(a),
            self.is_record(b),
        ensures
            a == b,
    {
        self.what_stays_is_unique(a.term, a.kept, b.kept);
        let lists = choose|lists: Seq<Vec<Posting>>| #[trigger]
            self.lists_read(a.term, lists) && a.kept == self.kept(a.term, lists);
        assert(self.lists_read(a.term, lists));
        if let Some(out_a) = a.output {
            if let Some(out_b) = b.output {
                self.lemma_one_encoding(a.kept, out_a, out_b);
            }
        }
    }

    /// The merge has one result: where reads, encodings and writes depend on nothing but what they
    /// are given, two merges that complete leave the same in the sink, and count the same. How the
    /// terms were batched and spread over workers, and which states they met, does not show.
    pub proof fn merge_result_is_unique<T, W, F: Fn(W, &str, T) -> (W, Result<(), BuildError>)>(
        &self,
        write: F,
        from: W,
        limits_a: BatchLimits,
        a: W,
        handed_a: Seq<S>,
        counts_a: MergeCounts,
        limits_b: BatchLimits,
        b: W,
        handed_b: Seq<S>,
        counts_b: MergeCounts,
    ) where E: Fn(S, &[(u32, u32)], TermRuns<'_>) -> (S, Result<T, BuildError>)
        requires
            self.inputs.len() <= usize::MAX,
            self.in_term_order(),
            self.reads_agree(),
            self.encodings_agree::<T>(),
            writes_agree::<T, W, F>(write),
            self.completed(limits_a, write, from, a, handed_a, counts_a),
            self.completed(limits_b, write, from, b, handed_b, counts_b),
        ensures
            a == b,
            counts_a == counts_b,
    {
        let dicts = choose|dicts: Seq<Seq<Entry>>| self.dictionaries(dicts);
        let records_a = self.lemma_completed(limits_a, write, from, a, handed_a, counts_a);
        let records_b = self.lemma_completed(limits_b, write, from, b, handed_b, counts_b);
        let terms = terms_of(records_a);
        assert(self.dictionaries(dicts));
        merge_is_unique(dicts, terms, terms_of(records_b));
        assert(all_ascending(dicts)) by {
            assert forall|i: int| 0 <= i < dicts.len() implies ascending_terms(#[trigger] dicts[i]) by {
                assert(dictionary_of(readers_of(self.inputs)[i], self.column_id, dicts[i]));
            }
        }
        assert(terms_of(records_b).len() == records_b.len());
        assert(terms_of(records_a).len() == records_a.len());
        assert forall|k: int| 0 <= k < records_a.len() implies records_a[k] == #[trigger] records_b[k] by {
            assert(terms_of(records_a)[k] == records_a[k].term);
            assert(terms_of(records_b)[k] == records_b[k].term);
            merge_holds_only_terms(dicts, terms, k);
            assert forall|h: int| 0 <= h < terms[k].1.len() implies (#[trigger] terms[k].1[h]).0
                < self.inputs.len() by {
                let (i, value) = terms[k].1[h];
                assert(i < dicts.len());
            }
            self.term_output_is_unique(records_a[k], records_b[k]);
        }
        assert(records_a =~= records_b);
        lemma_written_once(write, outputs(records_a), from, a, b);
    }

    /// The records of a merge that completed.
    pub proof fn lemma_completed<T, W, F: Fn(W, &str, T) -> (W, Result<(), BuildError>)>(
        &self,
        limits: BatchLimits,
        write: F,
        from: W,
        to: W,
        handed: Seq<S>,
        counts: MergeCounts,
    ) -> (records: Seq<Record<T>>) where
        E: Fn(S, &[(u32, u32)], TermRuns<'_>) -> (S, Result<T, BuildError>),

        requires
            self.completed(limits, write, from, to, handed, counts),
        ensures
            self.whole(terms_of(records)),
            self.wrote(records, write, from, to),
            self.hands_back(limits, records, handed),
            counts.count(records),
    {
        choose|records: Seq<Record<T>>|
            self.whole(terms_of(records)) && #[trigger] self.wrote(records, write, from, to)
                && self.hands_back(limits, records, handed) && counts.count(records)
    }

    /// The states given come back, no fewer, and each as it was given where no term has a posting
    /// that stays.
    pub proof fn states_come_back<T>(&self, limits: BatchLimits, records: Seq<Record<T>>, handed: Seq<S>) where
        E: Fn(S, &[(u32, u32)], TermRuns<'_>) -> (S, Result<T, BuildError>),

        requires
            self.hands_back(limits, records, handed),
        ensures
            handed.len() >= self.given.len(),
            handed.len() == self.given.len() || handed.len() <= most_tasks(limits, records.len()),
            records.len() == 0 ==> handed == self.given,
            (forall|k: int| 0 <= k < records.len() ==> (#[trigger] records[k]).output is None) ==> handed.take(
                self.given.len() as int,
            ) == self.given,
    {
        let (first, who) = choose|first: Seq<S>, who: Seq<int>|
            self.starts_with(first) && #[trigger] self.worked(first, records, who, handed);
        if forall|k: int| 0 <= k < records.len() ==> (#[trigger] records[k]).output is None {
            assert forall|w: int| 0 <= w < handed.len() implies #[trigger] handed[w] == first[w] by {
                lemma_no_outputs_no_share(records, who, w);
                assert(self.leads(first[w], share(records, who, w), handed[w]));
                let through = choose|through: Seq<S>| #[trigger]
                    self.leads_through(share(records, who, w), through) && through.first() == first[w]
                        && through.last() == handed[w];
                assert(through.len() == 1);
            }
            assert(handed.take(self.given.len() as int) =~= self.given) by {
                assert forall|w: int| 0 <= w < self.given.len() implies #[trigger] handed.take(
                    self.given.len() as int,
                )[w] == self.given[w] by {
                    assert(handed[w] == first[w]);
                    assert(first[w] == self.given[w]);
                }
            }
        }
        if records.len() == 0 {
            assert(handed.take(self.given.len() as int) =~= handed);
        }
    }

    /// What holds of the states that workers start with, and is kept by every encoding, holds of
    /// the states handed back.
    pub proof fn states_keep_what_encodings_keep<T>(
        &self,
        limits: BatchLimits,
        records: Seq<Record<T>>,
        handed: Seq<S>,
        p: spec_fn(S) -> bool,
        w: int,
    ) where E: Fn(S, &[(u32, u32)], TermRuns<'_>) -> (S, Result<T, BuildError>)
        requires
            self.hands_back(limits, records, handed),
            forall|s: S| #[trigger] self.is_first(s) ==> p(s),
            forall|s: S, kept: Seq<Kept>, after: S, out: T|
                p(s) && #[trigger] self.encodes(s, kept, after, Ok(out)) ==> p(after),
            0 <= w < handed.len(),
        ensures
            p(handed[w]),
    {
        let (first, who) = choose|first: Seq<S>, who: Seq<int>|
            self.starts_with(first) && #[trigger] self.worked(first, records, who, handed);
        let steps = share(records, who, w);
        assert(self.leads(first[w], steps, handed[w]));
        let through = choose|through: Seq<S>| #[trigger]
            self.leads_through(steps, through) && through.first() == first[w] && through.last()
                == handed[w];
        assert(self.is_first(first[w])) by {
            if w < self.given.len() {
                assert(first[w] == self.given[w]);
            }
        }
        self.lemma_kept_through(steps, through, p, steps.len() as int);
    }

    proof fn lemma_kept_through<T>(
        &self,
        steps: Seq<Step<T>>,
        through: Seq<S>,
        p: spec_fn(S) -> bool,
        k: int,
    ) where E: Fn(S, &[(u32, u32)], TermRuns<'_>) -> (S, Result<T, BuildError>)
        requires
            self.leads_through(steps, through),
            p(through[0]),
            forall|s: S, kept: Seq<Kept>, after: S, out: T|
                p(s) && #[trigger] self.encodes(s, kept, after, Ok(out)) ==> p(after),
            0 <= k <= steps.len(),
        ensures
            p(through[k]),
        decreases k,
    {
        if k > 0 {
            self.lemma_kept_through(steps, through, p, k - 1);
            assert(self.encodes(through[k - 1], steps[k - 1].0, through[k - 1 + 1], Ok(steps[k - 1].1)));
        }
    }

    /// The merge succeeds unless something it calls fails or a term is not text.
    pub proof fn nothing_else_breaks_off<T, W, F: Fn(W, &str, T) -> (W, Result<(), BuildError>)>(
        &self,
        limits: BatchLimits,
        write: F,
        from: W,
        to: W,
        error: BuildError,
    ) where E: Fn(S, &[(u32, u32)], TermRuns<'_>) -> (S, Result<T, BuildError>)
        requires
            !self.walk_fails(error),
            forall|terms: Seq<MergedTerm>, k: int|
                #![trigger self.begins(terms), terms[k]]
                self.begins(terms) && 0 <= k < terms.len() ==> {
                    &&& valid_utf8(terms[k].0)
                    &&& !self.fails::<T>(terms[k], error)
                    &&& forall|at: W| !#[trigger] self.write_fails(terms[k], write, at, to, error)
                },
        ensures
            !self.broke_off(limits, write, from, to, error),
    {
        if self.broke_off(limits, write, from, to, error) {
            let (done, next, at) = self.lemma_broke_off::<T, W, F>(limits, write, from, to, error);
            let terms = done + next;
            assert(self.begins(terms));
            if self.merge_stops::<T>(next, error) {
                let k = choose|k: int| 0 <= k < next.len() && #[trigger] self.fails_first::<T>(next, k, error);
                assert(terms[done.len() + k] == next[k]);
            } else {
                let (records, mid) = choose|records: Seq<Record<T>>, mid: W| #[trigger]
                    self.wrote(records, write, at, mid) && self.refused_after(
                        next,
                        records,
                        write,
                        mid,
                        to,
                        error,
                    );
                let k = records.len() as int;
                assert(terms[done.len() + k] == next[k]);
                assert(valid_utf8(next[k].0));
                assert(!self.write_fails(next[k], write, mid, to, error));
            }
        }
    }

    /// Where a merge broke off: what was written before, and the batch that ended it.
    proof fn lemma_broke_off<T, W, F: Fn(W, &str, T) -> (W, Result<(), BuildError>)>(
        &self,
        limits: BatchLimits,
        write: F,
        from: W,
        to: W,
        error: BuildError,
    ) -> (r: (Seq<MergedTerm>, Seq<MergedTerm>, W)) where
        E: Fn(S, &[(u32, u32)], TermRuns<'_>) -> (S, Result<T, BuildError>),

        requires
            self.broke_off(limits, write, from, to, error),
        ensures
            self.begins(r.0 + r.1),
            self.wrote_all(r.0, write, from, r.2),
            self.ends_in(limits, r.1, write, r.2, to, error),
    {
        choose|done: Seq<MergedTerm>, next: Seq<MergedTerm>, at: W| #[trigger]
            self.begins(done + next) && #[trigger] self.wrote_all(done, write, from, at) && self.ends_in(
                limits,
                next,
                write,
                at,
                to,
                error,
            )
    }

    /// A batch in which a term over the byte limit fails to merge is that term alone, so every term
    /// before it was merged and written.
    pub proof fn all_before_a_large_term_is_written<T, W, F: Fn(W, &str, T) -> (W, Result<(), BuildError>)>(
        &self,
        limits: BatchLimits,
        done: Seq<MergedTerm>,
        next: Seq<MergedTerm>,
        k: int,
        write: F,
        from: W,
        at: W,
        to: W,
        error: BuildError,
    ) where E: Fn(S, &[(u32, u32)], TermRuns<'_>) -> (S, Result<T, BuildError>)
        requires
            self.wrote_all(done, write, from, at),
            within_limits(next, limits),
            self.batch_fails(next, write, at, to, error),
            0 <= k < next.len(),
            total_hinted(next[k].1) > limits.posting_bytes,
        ensures
            next == seq![next[k]],
            self.fails::<T>(next[k], error) && to == at || self.refuses(next[k], write, at, to, error),
    {
        a_large_term_is_a_batch_of_its_own(next, limits, k);
        assert(next =~= seq![next[k]]);
        if self.merge_stops::<T>(next, error) && to == at {
            let j = choose|j: int| 0 <= j < next.len() && #[trigger] self.fails_first::<T>(next, j, error);
            assert(j == k);
        } else {
            let (records, mid) = choose|records: Seq<Record<T>>, mid: W| #[trigger]
                self.wrote(records, write, at, mid) && self.refused_after(next, records, write, mid, to, error);
            assert(records.len() == 0);
            assert(outputs(records).len() == 0);
            let sinks = choose|sinks: Seq<W>| #[trigger]
                writes_through(write, outputs(records), sinks) && sinks.first() == at && sinks.last() == mid;
            assert(sinks.len() == 1);
        }
    }

    /// No term is among the first of a merge of dictionaries that hold none.
    proof fn lemma_no_terms(&self, dicts: Seq<Seq<Entry>>, terms: Seq<MergedTerm>)
        requires
            self.dictionaries(dicts),
            forall|i: int| 0 <= i < dicts.len() ==> (#[trigger] dicts[i]).len() == 0,
            self.begins(terms),
        ensures
            terms.len() == 0,
    {
        if terms.len() > 0 {
            let start = at_first(dicts.len());
            assert(begins_merge(dicts, terms));
            assert(after_terms(dicts, start, 0) == start);
            assert(!exhausted(dicts, after_terms(dicts, start, 0int as nat)));
            let i = choose|i: int| has_head(dicts, start, i);
            assert(dicts[i].len() == 0);
        }
    }

    /// A merge with no inputs, or of dictionaries without terms, writes nothing, hands the states
    /// back as they were given and counts nothing. It ends in an error only where a dictionary could
    /// not be read.
    pub proof fn nothing_to_merge_changes_nothing<T, W, F: Fn(W, &str, T) -> (W, Result<(), BuildError>)>(
        &self,
        limits: BatchLimits,
        dicts: Seq<Seq<Entry>>,
        write: F,
        from: W,
        to: W,
        handed: Seq<S>,
        counts: MergeCounts,
        error: BuildError,
    ) where E: Fn(S, &[(u32, u32)], TermRuns<'_>) -> (S, Result<T, BuildError>)
        requires
            self.dictionaries(dicts),
            forall|i: int| 0 <= i < dicts.len() ==> (#[trigger] dicts[i]).len() == 0,
        ensures
            self.completed(limits, write, from, to, handed, counts) ==> {
                &&& to == from
                &&& handed == self.given
                &&& counts.postings == 0
                &&& counts.term_inputs == 0
                &&& counts.sorted_terms == 0
                &&& counts.sorted_postings == 0
                &&& counts.run_values == 0
            },
            self.broke_off(limits, write, from, to, error) ==> to == from && self.walk_fails(error),
    {
        if self.completed(limits, write, from, to, handed, counts) {
            let records = self.lemma_completed(limits, write, from, to, handed, counts);
            self.lemma_no_terms(dicts, terms_of(records));
            self.states_come_back(limits, records, handed);
            assert(outputs(records).len() == 0);
        }
        if self.broke_off(limits, write, from, to, error) {
            let (done, next, at) = self.lemma_broke_off::<T, W, F>(limits, write, from, to, error);
            self.lemma_no_terms(dicts, done + next);
            assert(done.len() == 0 && next.len() == 0);
            let records = choose|records: Seq<Record<T>>|
                terms_of(records) == done && #[trigger] self.wrote(records, write, from, at);
            assert(terms_of(records).len() == 0);
            assert(outputs(records).len() == 0);
            assert(!self.batch_fails(next, write, at, to, error));
        }
    }

    /// A column with a term that is not text does not complete.
    pub proof fn other_than_text_is_refused<T, W, F: Fn(W, &str, T) -> (W, Result<(), BuildError>)>(
        &self,
        dicts: Seq<Seq<Entry>>,
        terms: Seq<MergedTerm>,
        j: int,
        limits: BatchLimits,
        write: F,
        from: W,
        to: W,
        handed: Seq<S>,
        counts: MergeCounts,
    ) where E: Fn(S, &[(u32, u32)], TermRuns<'_>) -> (S, Result<T, BuildError>)
        requires
            self.dictionaries(dicts),
            is_merge(dicts, terms),
            0 <= j < terms.len(),
            !valid_utf8(terms[j].0),
        ensures
            !self.completed(limits, write, from, to, handed, counts),
    {
        if self.completed(limits, write, from, to, handed, counts) {
            let records = self.lemma_completed(limits, write, from, to, handed, counts);
            merge_is_unique(dicts, terms, terms_of(records));
            assert(terms_of(records)[j] == records[j].term);
        }
    }
}

/// Where no record has an output no worker has a share.
proof fn lemma_no_outputs_no_share<T>(records: Seq<Record<T>>, who: Seq<int>, w: int)
    requires
        forall|k: int| 0 <= k < records.len() ==> (#[trigger] records[k]).output is None,
    ensures
        share(records, who, w).len() == 0,
    decreases records.len(),
{
    if records.len() > 0 {
        let fewer = records.drop_last();
        assert forall|k: int| 0 <= k < fewer.len() implies (#[trigger] fewer[k]).output is None by {
            assert(fewer[k] == records[k]);
        }
        lemma_no_outputs_no_share(fewer, who.drop_last(), w);
        assert(records[records.len() - 1] == records.last());
    }
}

/// What a write leaves in the sink depends on nothing but the sink, the term and the output.
pub open spec fn writes_agree<T, W, F: Fn(W, &str, T) -> (W, Result<(), BuildError>)>(write: F) -> bool {
    forall|term: Seq<u8>, out: T, from: W, a: W, b: W| #[trigger]
        writes(write, term, out, from, a, Ok(())) && #[trigger] writes(write, term, out, from, b, Ok(())) ==> a
            == b
}

/// Writing the same outputs leaves the same in the sink, where writes agree.
pub proof fn lemma_written_once<T, W, F: Fn(W, &str, T) -> (W, Result<(), BuildError>)>(
    write: F,
    outs: Seq<(Seq<u8>, T)>,
    from: W,
    a: W,
    b: W,
)
    requires
        writes_agree::<T, W, F>(write),
        written(write, outs, from, a),
        written(write, outs, from, b),
    ensures
        a == b,
{
    let sinks_a = choose|sinks: Seq<W>| #[trigger]
        writes_through(write, outs, sinks) && sinks.first() == from && sinks.last() == a;
    let sinks_b = choose|sinks: Seq<W>| #[trigger]
        writes_through(write, outs, sinks) && sinks.first() == from && sinks.last() == b;
    lemma_same_sinks(write, outs, sinks_a, sinks_b, outs.len() as int);
}

/// Two ways to write the same outputs from one sink meet the same sinks, where writes agree.
proof fn lemma_same_sinks<T, W, F: Fn(W, &str, T) -> (W, Result<(), BuildError>)>(
    write: F,
    outs: Seq<(Seq<u8>, T)>,
    a: Seq<W>,
    b: Seq<W>,
    k: int,
)
    requires
        writes_agree::<T, W, F>(write),
        writes_through(write, outs, a),
        writes_through(write, outs, b),
        a[0] == b[0],
        0 <= k <= outs.len(),
    ensures
        a[k] == b[k],
    decreases k,
{
    if k > 0 {
        lemma_same_sinks(write, outs, a, b, k - 1);
        let (term, out) = outs[k - 1];
        assert(writes(write, term, out, a[k - 1], a[k], Ok(())));
        assert(writes(write, term, out, a[k - 1], b[k], Ok(())));
    }
}

} // verus!
