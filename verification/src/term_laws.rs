//! That the work on a term depends on nothing outside the term.
use crate::dictionary::{FstValue, FtsError, FtsReader, Posting};
use crate::errors::{is_read_error, BuildError};
use crate::merge_job::{reads_postings, Job, Record, TermRuns};
use crate::posting_laws::arrangement_is_unique;
use crate::sorted_merge::BatchWork;
use crate::term_merge::MergedTerm;
use crate::term_walk::inputs_below;
use crate::term_work::{all_runs, is_arrangement, Kept, TermWork};
use vstd::prelude::*;

verus! {

impl<R: FtsReader, S, N: Fn() -> S, E> Job<R, S, N, E> {
    /// A read of an input's postings ends in one way, whenever it is made.
    pub open spec fn reads_one_way(&self) -> bool {
        forall|
            i: int,
            term: Seq<u8>,
            value: FstValue,
            a: Result<Vec<Posting>, FtsError>,
            b: Result<Vec<Posting>, FtsError>,
        |
            0 <= i < self.inputs.len() && #[trigger] reads_postings(
                self.fts(i),
                self.column_id,
                term,
                value,
                a,
            ) && #[trigger] reads_postings(self.fts(i), self.column_id, term, value, b) ==> a == b
    }

    /// An encoding ends in one way for one state and the same postings.
    pub open spec fn encodes_one_way<T>(&self) -> bool where
        E: Fn(S, &[(u32, u32)], TermRuns<'_>) -> (S, Result<T, BuildError>),
     {
        forall|
            s: S,
            p: &[(u32, u32)],
            v: &[u32],
            st: &[usize],
            a: (S, Result<T, BuildError>),
            q: &[(u32, u32)],
            w: &[u32],
            su: &[usize],
            b: (S, Result<T, BuildError>),
        |
            p@ == q@ && v@ == w@ && st@ == su@ && #[trigger] self.encode.ensures(
                (s, p, TermRuns::Values { values: v, starts: st }),
                a,
            ) && #[trigger] self.encode.ensures((s, q, TermRuns::Values { values: w, starts: su }), b) ==> a
                == b
    }

    /// What is encoded of a term is fixed by the term: the postings, the run values and where the
    /// runs start.
    pub proof fn what_is_encoded_is_unique(
        &self,
        term: MergedTerm,
        kept_a: Seq<Kept>,
        pairs_a: Seq<(u32, u32)>,
        starts_a: Seq<usize>,
        kept_b: Seq<Kept>,
        pairs_b: Seq<(u32, u32)>,
        starts_b: Seq<usize>,
    )
        requires
            self.reads_one_way(),
            inputs_below(term.1, self.inputs.len()),
            self.stays(term, kept_a),
            is_arrangement(kept_a, pairs_a, starts_a),
            self.stays(term, kept_b),
            is_arrangement(kept_b, pairs_b, starts_b),
        ensures
            kept_a == kept_b,
            pairs_a == pairs_b,
            starts_a == starts_b,
            all_runs(kept_a) == all_runs(kept_b),
    {
        self.lemma_one_stays(term, kept_a, kept_b);
        arrangement_is_unique(kept_a, pairs_a, starts_a, pairs_b, starts_b);
    }

    proof fn lemma_one_stays(&self, term: MergedTerm, a: Seq<Kept>, b: Seq<Kept>)
        requires
            self.reads_one_way(),
            inputs_below(term.1, self.inputs.len()),
            self.stays(term, a),
            self.stays(term, b),
        ensures
            a == b,
    {
        let lists_a = choose|lists: Seq<Vec<Posting>>| #[trigger]
            self.lists_read(term, lists) && a == self.kept(term, lists);
        let lists_b = choose|lists: Seq<Vec<Posting>>| #[trigger]
            self.lists_read(term, lists) && b == self.kept(term, lists);
        assert forall|k: int| 0 <= k < lists_a.len() implies lists_a[k] == #[trigger] lists_b[k] by {
            let i = term.1[k].0 as int;
            assert(term.1[k].0 < self.inputs.len());
            let out_a: Result<Vec<Posting>, FtsError> = Ok(lists_a[k]);
            let out_b: Result<Vec<Posting>, FtsError> = Ok(lists_b[k]);
            assert(reads_postings(self.fts(i), self.column_id, term.0, term.1[k].1, out_a));
            assert(reads_postings(self.fts(i), self.column_id, term.0, term.1[k].1, out_b));
        }
        assert(lists_a =~= lists_b);
    }

    /// A term whose postings stay cannot fail to be read.
    proof fn lemma_stays_or_fails(&self, term: MergedTerm, kept: Seq<Kept>, k: int, e: FtsError)
        requires
            self.reads_one_way(),
            inputs_below(term.1, self.inputs.len()),
            self.stays(term, kept),
        ensures
            !self.read_fails_at(term, k, e),
    {
        if self.read_fails_at(term, k, e) {
            let lists = choose|lists: Seq<Vec<Posting>>| #[trigger]
                self.lists_read(term, lists) && kept == self.kept(term, lists);
            let i = term.1[k].0 as int;
            assert(term.1[k].0 < self.inputs.len());
            let good: Result<Vec<Posting>, FtsError> = Ok(lists[k]);
            let bad: Result<Vec<Posting>, FtsError> = Err(e);
            assert(reads_postings(self.fts(i), self.column_id, term.0, term.1[k].1, good));
            assert(reads_postings(self.fts(i), self.column_id, term.0, term.1[k].1, bad));
            assert(good == bad);
        }
    }

    /// Where a read of a term fails, it fails at one input, in one way.
    proof fn lemma_fails_once(&self, term: MergedTerm, j: int, d: FtsError, k: int, e: FtsError)
        requires
            self.reads_one_way(),
            inputs_below(term.1, self.inputs.len()),
            self.read_fails_at(term, j, d),
            self.read_fails_at(term, k, e),
        ensures
            j == k,
            d == e,
    {
        if j < k {
            self.lemma_not_both(term, j, d);
            assert(self.can_read(term, j));
        }
        if k < j {
            self.lemma_not_both(term, k, e);
            assert(self.can_read(term, k));
        }
        let a: Result<Vec<Posting>, FtsError> = Err(d);
        let b: Result<Vec<Posting>, FtsError> = Err(e);
        assert(term.1[k].0 < self.inputs.len());
        assert(reads_postings(self.fts(term.1[k].0 as int), self.column_id, term.0, term.1[k].1, a));
        assert(reads_postings(self.fts(term.1[k].0 as int), self.column_id, term.0, term.1[k].1, b));
    }

    proof fn lemma_not_both(&self, term: MergedTerm, k: int, e: FtsError)
        requires
            self.reads_one_way(),
            inputs_below(term.1, self.inputs.len()),
            0 <= k < term.1.len(),
            self.reads(term, k, Err(e)),
        ensures
            !self.can_read(term, k),
    {
        if self.can_read(term, k) {
            let list = choose|list: Vec<Posting>| self.reads(term, k, Ok(list));
            let good: Result<Vec<Posting>, FtsError> = Ok(list);
            let bad: Result<Vec<Posting>, FtsError> = Err(e);
            assert(term.1[k].0 < self.inputs.len());
            assert(reads_postings(self.fts(term.1[k].0 as int), self.column_id, term.0, term.1[k].1, good));
            assert(reads_postings(self.fts(term.1[k].0 as int), self.column_id, term.0, term.1[k].1, bad));
            assert(good == bad);
        }
    }

    /// An encoding of postings with one state ends in one way.
    proof fn lemma_encodes_once<T>(
        &self,
        s: S,
        kept: Seq<Kept>,
        after_a: S,
        a: Result<T, BuildError>,
        after_b: S,
        b: Result<T, BuildError>,
    ) where E: Fn(S, &[(u32, u32)], TermRuns<'_>) -> (S, Result<T, BuildError>)
        requires
            self.encodes_one_way::<T>(),
            self.encodes(s, kept, after_a, a),
            self.encodes(s, kept, after_b, b),
        ensures
            after_a == after_b,
            a == b,
    {
        let (p, v, st) = choose|pairs: &[(u32, u32)], values: &[u32], starts: &[usize]|
            is_arrangement(kept, pairs@, starts@) && values@ == all_runs(kept)
                && #[trigger] self.encode.ensures((s, pairs, TermRuns::Values { values, starts }), (after_a, a));
        let (q, w, su) = choose|pairs: &[(u32, u32)], values: &[u32], starts: &[usize]|
            is_arrangement(kept, pairs@, starts@) && values@ == all_runs(kept)
                && #[trigger] self.encode.ensures((s, pairs, TermRuns::Values { values, starts }), (after_b, b));
        arrangement_is_unique(kept, p@, st@, q@, su@);
        let ra = (after_a, a);
        let rb = (after_b, b);
        assert(self.encode.ensures((s, p, TermRuns::Values { values: v, starts: st }), ra));
        assert(self.encode.ensures((s, q, TermRuns::Values { values: w, starts: su }), rb));
        assert(ra == rb);
    }
}

/// Two errors are the same, or tell of the same failed read.
pub open spec fn same_error(a: BuildError, b: BuildError) -> bool {
    a == b || exists|e: FtsError| #[trigger] is_read_error(e, a) && is_read_error(e, b)
}

/// Two results are the same.
pub open spec fn same_result<T>(a: Result<Option<T>, BuildError>, b: Result<Option<T>, BuildError>) -> bool {
    match (a, b) {
        (Ok(x), Ok(y)) => x == y,
        (Err(d), Err(e)) => same_error(d, e),
        _ => false,
    }
}

impl<'a, R: FtsReader + Sync, S: Send, N: Fn() -> S + Sync, E: Sync> BatchWork<'a, R, S, N, E> {
    /// A term's work depends on nothing outside the term: where reads and encodings end in one way,
    /// merging a term with one state ends in one way, and leaves the state in one way, whatever the
    /// buffers it was gathered in have held before.
    pub proof fn a_terms_work_depends_on_the_term_alone<T>(
        &self,
        term: MergedTerm,
        state: S,
        work_a: TermWork,
        a: Result<Option<T>, BuildError>,
        after_a: (TermWork, S),
        work_b: TermWork,
        b: Result<Option<T>, BuildError>,
        after_b: (TermWork, S),
    ) where E: Fn(S, &[(u32, u32)], TermRuns<'_>) -> (S, Result<T, BuildError>)
        requires
            self.job().reads_one_way(),
            self.job().encodes_one_way::<T>(),
            inputs_below(term.1, self.job().inputs.len()),
            self.term_ended((work_a, state), term, a, after_a),
            self.term_ended((work_b, state), term, b, after_b),
        ensures
            same_result(a, b),
            after_a.1 == after_b.1,
    {
        let job = self.job();
        let how_a = self.lemma_how_it_ended(term, (work_a, state), a, after_a);
        let how_b = self.lemma_how_it_ended(term, (work_b, state), b, after_b);
        match (how_a, how_b) {
            (Ok(kept_a), Ok(kept_b)) => {
                job.lemma_one_stays(term, kept_a, kept_b);
                if kept_a.len() > 0 {
                    job.lemma_encodes_once(
                        state,
                        kept_a,
                        after_a.1,
                        encoded(a),
                        after_b.1,
                        encoded(b),
                    );
                }
            },
            (Ok(kept), Err((k, e))) => {
                job.lemma_stays_or_fails(term, kept, k, e);
            },
            (Err((k, e)), Ok(kept)) => {
                job.lemma_stays_or_fails(term, kept, k, e);
            },
            (Err((j, d)), Err((k, e))) => {
                job.lemma_fails_once(term, j, d, k, e);
                assert(same_error(a->Err_0, b->Err_0));
            },
        }
    }

    /// What a term's merge rests on: the postings that stay of it, or the read that failed.
    proof fn lemma_how_it_ended<T>(
        &self,
        term: MergedTerm,
        before: (TermWork, S),
        result: Result<Option<T>, BuildError>,
        after: (TermWork, S),
    ) -> (how: Result<Seq<Kept>, (int, FtsError)>) where
        E: Fn(S, &[(u32, u32)], TermRuns<'_>) -> (S, Result<T, BuildError>),

        requires
            self.term_ended(before, term, result, after),
        ensures
            match how {
                Ok(kept) => {
                    &&& self.job().stays(term, kept)
                    &&& kept.len() == 0 ==> result == Ok::<Option<T>, BuildError>(None) && after.1 == before.1
                    &&& kept.len() > 0 ==> result != Ok::<Option<T>, BuildError>(None)
                    &&& kept.len() > 0 ==> self.job().encodes(before.1, kept, after.1, encoded(result))
                },
                Err((k, e)) => {
                    &&& self.job().read_fails_at(term, k, e)
                    &&& result is Err
                    &&& is_read_error(e, result->Err_0)
                    &&& after.1 == before.1
                },
            },
    {
        match result {
            Ok(output) => {
                let record = choose|record: Record<T>|
                    record.term == term && record.output == output && #[trigger] self.merged_as(
                        before,
                        record,
                        after,
                    );
                Ok(record.kept)
            },
            Err(error) => {
                if exists|kept: Seq<Kept>| #[trigger]
                    self.job().stays(term, kept) && self.encoding_failed::<T>(before, kept, error, after) {
                    let kept = choose|kept: Seq<Kept>| #[trigger]
                        self.job().stays(term, kept) && self.encoding_failed::<T>(before, kept, error, after);
                    Ok(kept)
                } else {
                    let (k, e) = choose|k: int, e: FtsError| #[trigger]
                        is_read_error(e, error) && #[trigger] self.job().read_fails_at(term, k, e);
                    Err((k, e))
                }
            },
        }
    }
}

/// The result of the one encoding of a term that has postings.
pub open spec fn encoded<T>(result: Result<Option<T>, BuildError>) -> Result<T, BuildError> {
    match result {
        Ok(output) => Ok(output->0),
        Err(e) => Err(e),
    }
}

} // verus!
