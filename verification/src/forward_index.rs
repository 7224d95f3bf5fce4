//! The terms each document carries.
use vstd::prelude::*;

verus! {

/// A document's terms, as ids into a shared vocabulary, laid out one document after another with
/// an index of where each begins.
///
/// Compressed-sparse-row rather than a `Vec<Vec<u32>>`: the bisection walks a document's terms
/// repeatedly and allocates nothing to do it, and the whole structure is two allocations however
/// many documents there are. Its view is the documents' term lists.
#[derive(Debug, Clone)]
pub struct ForwardIndex {
    /// Term ids, documents laid end to end.
    terms: Vec<u32>,
    /// `starts[d]..starts[d + 1]` is document `d`'s slice of `terms`. One longer than the
    /// document count, or empty when there is no document.
    starts: Vec<u32>,
    /// One past the largest term id, sizing the degree tables.
    n_terms: usize,
}

/// Term ids held across all of `docs`.
pub open spec fn entries(docs: Seq<Seq<u32>>) -> nat
    decreases docs.len(),
{
    if docs.len() == 0 {
        0
    } else {
        entries(docs.drop_last()) + docs.last().len()
    }
}

/// `n` is one past the largest term id in `docs`, or zero when they hold none.
pub open spec fn is_term_bound(docs: Seq<Seq<u32>>, n: int) -> bool {
    &&& forall|d: int, i: int| 0 <= d < docs.len() && 0 <= i < docs[d].len() ==> #[trigger] docs[d][i] < n
    &&& n == 0 || exists|d: int, i: int|
        0 <= d < docs.len() && 0 <= i < docs[d].len() && #[trigger] docs[d][i] == n - 1
}

/// No two documents of `docs` carry the same term.
pub open spec fn no_shared_term(docs: Seq<Seq<u32>>) -> bool {
    forall|d: int, i: int, e: int, j: int|
        0 <= d < e < docs.len() && 0 <= i < docs[d].len() && 0 <= j < docs[e].len() ==> #[trigger] docs[d][i]
            != #[trigger] docs[e][j]
}

/// The term lists held by a slice of vectors.
pub open spec fn doc_views(docs: Seq<Vec<u32>>) -> Seq<Seq<u32>> {
    Seq::new(docs.len(), |d: int| docs[d]@)
}

impl View for ForwardIndex {
    type V = Seq<Seq<u32>>;

    closed spec fn view(&self) -> Seq<Seq<u32>> {
        Seq::new(
            if self.starts.len() == 0 {
                0
            } else {
                (self.starts.len() - 1) as nat
            },
            |d: int| self.terms@.subrange(self.starts[d] as int, self.starts[d + 1] as int),
        )
    }
}

impl ForwardIndex {
    /// The index lays out its documents end to end, and knows its largest term id.
    pub closed spec fn wf(&self) -> bool {
        &&& self.starts.len() == 0 ==> self.terms.len() == 0
        &&& self.starts.len() > 0 ==> self.starts[0] == 0
        &&& self.starts.len() > 0 ==> self.starts[self.starts.len() - 1] == self.terms.len()
        &&& forall|i: int, j: int|
            0 <= i <= j < self.starts.len() ==> #[trigger] self.starts[i] <= #[trigger] self.starts[j]
        &&& is_term_bound(self@, self.n_terms as int)
        &&& entries(self@) == self.terms.len()
        &&& entries(self@) <= u32::MAX
    }

    /// One past the largest term id.
    pub closed spec fn term_bound(&self) -> usize {
        self.n_terms
    }

    /// A well-formed index holds at most `u32::MAX` term ids, each below the term bound.
    pub proof fn lemma_bounds(&self)
        requires
            self.wf(),
        ensures
            is_term_bound(self@, self.term_bound() as int),
            entries(self@) <= u32::MAX,
    {
    }

    /// Build from each document's term ids. Ids need not be sorted or unique within a document;
    /// duplicates only weight a term more heavily, which is harmless here.
    pub fn from_docs(docs: &[Vec<u32>]) -> (fwd: Self)
        requires
            entries(doc_views(docs@)) <= u32::MAX,
            forall|d: int, i: int|
                0 <= d < docs@.len() && 0 <= i < docs@[d].len() ==> #[trigger] docs@[d][i] < usize::MAX,
        ensures
            fwd.wf(),
            fwd@ == doc_views(docs@),
            is_term_bound(doc_views(docs@), fwd.term_bound() as int),
    {
        let mut terms: Vec<u32> = Vec::new();
        let mut starts: Vec<u32> = vec![0u32];
        let mut n_terms: usize = 0;
        let ghost views = doc_views(docs@);
        for d in 0..docs.len()
            invariant
                views == doc_views(docs@),
                entries(views) <= u32::MAX,
                forall|d: int, i: int|
                    0 <= d < docs@.len() && 0 <= i < docs@[d].len() ==> #[trigger] docs@[d][i] < usize::MAX,
                starts.len() == d + 1,
                starts[0] == 0,
                starts[d as int] == terms.len(),
                terms.len() == entries(views.take(d as int)),
                forall|i: int, j: int|
                    0 <= i <= j < starts.len() ==> #[trigger] starts[i] <= #[trigger] starts[j],
                forall|e: int| 0 <= e < d ==> starts[e + 1] <= terms.len() && #[trigger] views[e]
                    == terms@.subrange(starts[e] as int, starts[e + 1] as int),
                is_term_bound(views.take(d as int), n_terms as int),
        {
            let ghost before = terms@;
            let ghost bound_before = n_terms;
            let doc = &docs[d];
            proof {
                lemma_entries_prefix(views, d + 1);
                assert(views.take(d + 1).drop_last() =~= views.take(d as int));
                assert(views[d as int] == doc@);
            }
            for i in 0..doc.len()
                invariant
                    d < docs@.len(),
                    doc@ == docs@[d as int]@,
                    forall|d: int, i: int|
                        0 <= d < docs@.len() && 0 <= i < docs@[d].len() ==> #[trigger] docs@[d][i]
                            < usize::MAX,
                    terms@ == before + doc@.take(i as int),
                    n_terms >= bound_before,
                    forall|k: int| 0 <= k < i ==> #[trigger] doc@[k] < n_terms,
                    n_terms == bound_before || exists|k: int|
                        0 <= k < i && #[trigger] doc@[k] == n_terms - 1,
            {
                let t: u32 = doc[i];
                assert(docs@[d as int][i as int] < usize::MAX);
                terms.push(t);
                assert(doc@.take(i + 1) =~= doc@.take(i as int).push(t));
                let end: usize = t as usize + 1;
                if end > n_terms {
                    n_terms = end;
                    assert(doc@[i as int] == n_terms - 1);
                }
            }
            assert(doc@.take(doc@.len() as int) =~= doc@);
            starts.push(terms.len() as u32);
            proof {
                assert forall|e: int| 0 <= e < d + 1 implies starts[e + 1] <= terms.len()
                    && #[trigger] views[e] == terms@.subrange(starts[e] as int, starts[e + 1] as int) by {
                    assert(terms@.subrange(starts[e] as int, starts[e + 1] as int) =~= views[e]);
                }
                let taken = views.take(d + 1);
                assert forall|e: int, i: int| 0 <= e < taken.len() && 0 <= i < taken[e].len() implies
                    #[trigger] taken[e][i] < n_terms by {
                    if e < d {
                        assert(views.take(d as int)[e][i] < bound_before);
                    }
                }
                if n_terms == bound_before {
                    if n_terms != 0 {
                        let (e, i) = choose|e: int, i: int|
                            0 <= e < views.take(d as int).len() && 0 <= i < views.take(d as int)[e].len()
                                && #[trigger] views.take(d as int)[e][i] == n_terms - 1;
                        assert(taken[e][i] == n_terms - 1);
                    }
                } else {
                    let k = choose|k: int| 0 <= k < doc@.len() && #[trigger] doc@[k] == n_terms - 1;
                    assert(taken[d as int][k] == n_terms - 1);
                }
            }
        }
        assert(views.take(docs@.len() as int) =~= views);
        let fwd = ForwardIndex { terms, starts, n_terms };
        assert(fwd@ =~= views);
        fwd
    }

    /// Term ids held across all documents.
    pub fn n_entries(&self) -> (n: usize)
        requires
            self.wf(),
        ensures
            n == entries(self@),
    {
        self.terms.len()
    }

    /// One past the largest term id.
    pub fn n_terms(&self) -> (n: usize)
        ensures
            n == self.term_bound(),
    {
        self.n_terms
    }

    /// Documents in the index.
    pub fn len(&self) -> (n: usize)
        ensures
            n == self@.len(),
    {
        self.starts.len().saturating_sub(1)
    }

    /// The terms of document `d`.
    pub fn doc(&self, d: u32) -> (terms: &[u32])
        requires
            self.wf(),
            d < self@.len(),
        ensures
            terms@ == self@[d as int],
    {
        let lo: usize = self.starts[d as usize] as usize;
        let hi: usize = self.starts[d as usize + 1] as usize;
        &self.terms[lo..hi]
    }

    /// Whether no two documents carry the same term.
    pub fn shares_no_term(&self) -> (r: bool)
        requires
            self.wf(),
            self@.len() <= u32::MAX,
        ensures
            r == no_shared_term(self@),
    {
        // One past the document that carries a term, or zero for a term not met yet.
        let mut carrier: Vec<u32> = vec![0u32; self.n_terms];
        let ghost docs = self@;
        let n: u32 = self.len() as u32;
        for d in 0..n
            invariant
                self.wf(),
                docs == self@,
                n == docs.len(),
                carrier@.len() == self.n_terms,
                forall|t: int| 0 <= t < carrier@.len() ==> #[trigger] carrier@[t] <= d,
                forall|e: int, i: int|
                    0 <= e < d && 0 <= i < docs[e].len() ==> carrier@[#[trigger] docs[e][i] as int] == e + 1,
                forall|t: int| #![trigger carrier@[t]]
                    0 <= t < carrier@.len() && carrier@[t] > 0 ==> docs[carrier@[t] - 1].contains(t as u32),
        {
            let terms = self.doc(d);
            for k in 0..terms.len()
                invariant
                    self.wf(),
                    docs == self@,
                    d < n,
                    n == docs.len(),
                    terms@ == docs[d as int],
                    carrier@.len() == self.n_terms,
                    forall|t: int| 0 <= t < carrier@.len() ==> #[trigger] carrier@[t] <= d + 1,
                    forall|e: int, i: int|
                        0 <= e < d && 0 <= i < docs[e].len() ==> carrier@[#[trigger] docs[e][i] as int]
                            == e + 1,
                    forall|i: int| 0 <= i < k ==> carrier@[#[trigger] terms@[i] as int] == d + 1,
                    forall|t: int| #![trigger carrier@[t]]
                        0 <= t < carrier@.len() && carrier@[t] > 0 ==> docs[carrier@[t] - 1].contains(t as u32),
            {
                let t: usize = terms[k] as usize;
                assert(docs[d as int][k as int] < self.n_terms);
                if carrier[t] != 0 && carrier[t] != d + 1 {
                    proof {
                        let e = carrier@[t as int] - 1;
                        let i = choose|i: int| 0 <= i < docs[e].len() && docs[e][i] == t as u32;
                        assert(docs[e][i] == docs[d as int][k as int]);
                    }
                    return false;
                }
                proof {
                    assert forall|e: int, i: int| 0 <= e < d && 0 <= i < docs[e].len() implies
                        #[trigger] docs[e][i] != t by {
                        assert(carrier@[docs[e][i] as int] == e + 1);
                    }
                    assert(docs[d as int][k as int] == t as u32);
                }
                carrier[t] = d + 1;
            }
        }
        proof {
            assert forall|d: int, i: int, e: int, j: int|
                0 <= d < e < docs.len() && 0 <= i < docs[d].len() && 0 <= j < docs[e].len() implies
                #[trigger] docs[d][i] != #[trigger] docs[e][j] by {
                assert(carrier@[docs[d][i] as int] == d + 1);
                assert(carrier@[docs[e][j] as int] == e + 1);
            }
        }
        true
    }
}

impl Default for ForwardIndex {
    fn default() -> (fwd: Self)
        ensures
            fwd.wf(),
            fwd@ == Seq::<Seq<u32>>::empty(),
            fwd.term_bound() == 0,
    {
        let fwd = ForwardIndex { terms: Vec::new(), starts: Vec::new(), n_terms: 0 };
        assert(fwd@ =~= Seq::<Seq<u32>>::empty());
        fwd
    }
}

/// A prefix of the documents holds no more term ids than all of them.
pub proof fn lemma_entries_prefix(docs: Seq<Seq<u32>>, n: int)
    requires
        0 <= n <= docs.len(),
    ensures
        entries(docs.take(n)) <= entries(docs),
    decreases docs.len() - n,
{
    if n < docs.len() {
        lemma_entries_prefix(docs, n + 1);
        assert(docs.take(n + 1).drop_last() =~= docs.take(n));
    } else {
        assert(docs.take(n) =~= docs);
    }
}

} // verus!
