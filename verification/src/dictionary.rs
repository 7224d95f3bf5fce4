//! What a merge reads from an input's index, and the walk over its dictionary.
use crate::term_order::{copy_term, same_term, term_lt, term_lt_asymmetric};
use bytes::Bytes;
use vstd::prelude::*;

verus! {

/// `bytes::Bytes`, carried from where a dictionary is fetched to where it is read. Nothing is
/// claimed of what it holds.
#[verifier::external_type_specification]
#[verifier::external_body]
pub struct ExBytes(bytes::Bytes);

/// Terms each input cursor reads from its dictionary at a time.
pub const TERMS_PER_CHUNK: usize = 4096;

/// Where a dictionary says a term's postings are.
#[derive(Clone, Copy, Debug, PartialEq, Eq)]
pub enum FstValue {
    /// A block-compressed posting list, and how many bytes it takes where that is known.
    Pfor { postings_offset: u64, postings_length_hint: Option<u32> },
    /// Any other form, carried through as it is.
    Packed(u64),
}

/// A failed read, as the index describes it.
#[derive(Debug)]
pub struct FtsError {
    pub message: String,
}

/// One document that carries a term: how often, and where.
#[derive(Debug)]
pub struct Posting {
    pub doc: u32,
    pub tf: u32,
    /// Strictly increasing; empty for a column without positions.
    pub positions: Vec<u32>,
}

/// Read access to one input's full-text index. No read is required to succeed, nor to give the
/// same answer twice.
pub trait FtsReader: Sized {
    /// The bytes of the dictionary.
    fn dict_bytes(&self) -> Result<Bytes, FtsError>;

    /// The first `limit` terms of a column at or after `resume`, in term order.
    fn column_terms_from(
        &self,
        fst_bytes: &Bytes,
        column_id: u32,
        resume: &Vec<u8>,
        limit: usize,
    ) -> Result<Vec<(Vec<u8>, FstValue)>, FtsError>;

    /// The postings of a term, by ascending document.
    fn postings_in(
        &self,
        column_id: u32,
        term: &[u8],
        value: FstValue,
    ) -> Result<Vec<Posting>, FtsError>;
}

/// A term and its dictionary value.
pub type Entry = (Seq<u8>, FstValue);

/// What a list of dictionary entries holds.
pub open spec fn entry_views(entries: Seq<(Vec<u8>, FstValue)>) -> Seq<Entry> {
    Seq::new(entries.len(), |i: int| (entries[i].0@, entries[i].1))
}

/// The terms of `dict` stand in term order, none twice.
pub open spec fn ascending_terms(dict: Seq<Entry>) -> bool {
    forall|i: int, j: int| 0 <= i < j < dict.len() ==> term_lt(#[trigger] dict[i].0, #[trigger] dict[j].0)
}

/// `chunk` is the first `limit` entries of `dict` at or after `resume`.
pub open spec fn is_chunk(dict: Seq<Entry>, resume: Seq<u8>, limit: int, chunk: Seq<Entry>) -> bool {
    exists|from: int| #[trigger] chunk_from(dict, resume, limit, chunk, from)
}

/// `chunk` is the first `limit` entries of `dict` from `from` on, where the terms at or after
/// `resume` begin.
pub open spec fn chunk_from(
    dict: Seq<Entry>,
    resume: Seq<u8>,
    limit: int,
    chunk: Seq<Entry>,
    from: int,
) -> bool {
    &&& 0 <= from <= dict.len()
    &&& forall|i: int| 0 <= i < from ==> term_lt(#[trigger] dict[i].0, resume)
    &&& forall|i: int| from <= i < dict.len() ==> !term_lt(#[trigger] dict[i].0, resume)
    &&& chunk == dict.subrange(
        from,
        if from + limit <= dict.len() {
            from + limit
        } else {
            dict.len() as int
        },
    )
}

/// A read of a column's terms can end in `out`.
pub open spec fn reads_terms<R: FtsReader>(
    fts: &R,
    fst_bytes: &Bytes,
    column_id: u32,
    resume: &Vec<u8>,
    limit: usize,
    out: Result<Vec<(Vec<u8>, FstValue)>, FtsError>,
) -> bool {
    call_ensures(R::column_terms_from, (fts, fst_bytes, column_id, resume, limit), out)
}

/// `dict` is the column's dictionary: its terms are in order, and every read that succeeds gives
/// those at or after where it starts.
pub open spec fn is_dictionary<R: FtsReader>(
    fts: &R,
    fst_bytes: &Bytes,
    column_id: u32,
    dict: Seq<Entry>,
) -> bool {
    &&& ascending_terms(dict)
    &&& forall|resume: &Vec<u8>, limit: usize, out: Result<Vec<(Vec<u8>, FstValue)>, FtsError>|
        #[trigger] reads_terms(fts, fst_bytes, column_id, resume, limit, out) ==> (out matches Ok(
            chunk,
        ) ==> is_chunk(dict, resume@, limit as int, entry_views(chunk@)))
}

/// Walks one input column's dictionary in term order, a chunk at a time.
pub struct TermChunks<'a, R> {
    fts: &'a R,
    /// The input's dictionary, fetched once rather than per chunk.
    fst_bytes: Bytes,
    column_id: u32,
    /// What is left of the latest chunk, last entry first.
    rest: Vec<(Vec<u8>, FstValue)>,
    /// Last term of the latest chunk; the next chunk starts after it.
    resume: Vec<u8>,
    started: bool,
    done: bool,
}

impl<'a, R: FtsReader> TermChunks<'a, R> {
    /// The index walked.
    pub closed spec fn fts(&self) -> &'a R {
        self.fts
    }

    /// The dictionary read.
    pub closed spec fn fst_bytes(&self) -> Bytes {
        self.fst_bytes
    }

    /// The column walked.
    pub closed spec fn column_id(&self) -> u32 {
        self.column_id
    }

    /// What is left of the latest chunk.
    pub closed spec fn pending(&self) -> Seq<Entry> {
        entry_views(self.rest@).reverse()
    }

    /// The last term of the latest chunk.
    pub closed spec fn resume(&self) -> Seq<u8> {
        self.resume@
    }

    /// A chunk was read.
    pub closed spec fn started(&self) -> bool {
        self.started
    }

    /// The latest chunk was the last.
    pub closed spec fn done(&self) -> bool {
        self.done
    }

    /// `other` walks the same column of the same dictionary.
    pub open spec fn same_walk(&self, other: &Self) -> bool {
        &&& self.fts() == other.fts()
        &&& self.fst_bytes() == other.fst_bytes()
        &&& self.column_id() == other.column_id()
    }

    /// Nothing was read yet.
    pub open spec fn at_start(&self) -> bool {
        &&& self.pending().len() == 0
        &&& self.resume().len() == 0
        &&& !self.started()
        &&& !self.done()
    }

    /// The entries of `dict` before `k` were handed out, and those from `k` on will be.
    pub open spec fn at(&self, dict: Seq<Entry>, k: int) -> bool {
        let read = k + self.pending().len();
        &&& 0 <= k
        &&& read <= dict.len()
        &&& self.pending() == dict.subrange(k, read)
        &&& self.done() ==> read == dict.len()
        &&& !self.started() ==> read == 0 && self.resume().len() == 0 && !self.done()
        &&& self.started() && !self.done() ==> read > 0 && self.resume() == dict[read - 1].0
    }

    /// `dict` is the dictionary that this walks.
    pub open spec fn walks(&self, dict: Seq<Entry>) -> bool {
        is_dictionary(self.fts(), &self.fst_bytes(), self.column_id(), dict)
    }

    /// A chunk that starts with the term handed out last has that term skipped.
    pub open spec fn skips_first(&self, chunk: Seq<Entry>) -> bool {
        self.started() && chunk.len() > 0 && chunk[0].0 == self.resume()
    }

    /// `after` is this walk once it has read `chunk`.
    pub open spec fn fed(&self, chunk: Seq<Entry>, after: &Self) -> bool {
        &&& after.same_walk(self)
        &&& after.pending() == if self.skips_first(chunk) {
            chunk.drop_first()
        } else {
            chunk
        }
        &&& after.resume() == if chunk.len() > 0 {
            chunk.last().0
        } else {
            self.resume()
        }
        &&& after.started()
        &&& after.done() == (chunk.len() < TERMS_PER_CHUNK)
    }

    /// Nothing was read or handed out between this and `other`.
    pub open spec fn same_place(&self, other: &Self) -> bool {
        &&& self.same_walk(other)
        &&& self.pending() == other.pending()
        &&& self.resume() == other.resume()
        &&& self.started() == other.started()
        &&& self.done() == other.done()
    }

    /// Reading the next chunk, from where the latest ended, can end in `out`.
    pub open spec fn reads_next(&self, out: Result<Vec<(Vec<u8>, FstValue)>, FtsError>) -> bool {
        exists|resume: &Vec<u8>|
            resume@ == self.resume() && #[trigger] reads_terms(
                self.fts(),
                &self.fst_bytes(),
                self.column_id(),
                resume,
                TERMS_PER_CHUNK,
                out,
            )
    }

    /// The next entry at hand is handed out, or none where there is none.
    pub open spec fn hands_out(
        &self,
        r: Result<Option<(Vec<u8>, FstValue)>, FtsError>,
        after: &Self,
    ) -> bool {
        if self.pending().len() > 0 {
            &&& r matches Ok(Some(entry)) && (entry.0@, entry.1) == self.pending()[0]
            &&& after.same_walk(self)
            &&& after.pending() == self.pending().drop_first()
            &&& after.resume() == self.resume()
            &&& after.started() == self.started()
            &&& after.done() == self.done()
        } else {
            &&& r matches Ok(None)
            &&& self.done()
            &&& after.same_place(self)
        }
    }

    /// Walk `column_id` from the start of the dictionary that `fts` hands over.
    pub fn new(fts: &'a R, column_id: u32) -> (r: Result<Self, FtsError>)
        ensures
            r matches Ok(chunks) ==> {
                &&& chunks.at_start()
                &&& chunks.fts() == fts
                &&& chunks.column_id() == column_id
                &&& call_ensures(R::dict_bytes, (fts,), Ok(chunks.fst_bytes()))
            },
            r matches Err(e) ==> call_ensures(R::dict_bytes, (fts,), Err(e)),
    {
        match fts.dict_bytes() {
            Ok(fst_bytes) => {
                let chunks = TermChunks {
                    fts,
                    fst_bytes,
                    column_id,
                    rest: Vec::new(),
                    resume: Vec::new(),
                    started: false,
                    done: false,
                };
                Ok(chunks)
            },
            Err(e) => Err(e),
        }
    }

    /// Take in the chunk that was read from `resume` on.
    pub fn feed(&mut self, chunk: Vec<(Vec<u8>, FstValue)>)
        requires
            old(self).pending().len() == 0,
        ensures
            old(self).fed(entry_views(chunk@), final(self)),
    {
        let ghost views = entry_views(chunk@);
        let mut chunk = chunk;
        self.done = chunk.len() < TERMS_PER_CHUNK;
        // A chunk starts at `resume` itself, which was already handed out.
        let skip_first: bool = self.started && chunk.len() > 0 && same_term(&chunk[0].0, &self.resume);
        let n: usize = chunk.len();
        if n > 0 {
            self.resume = copy_term(&chunk[n - 1].0);
        }
        self.started = true;
        let mut rest: Vec<(Vec<u8>, FstValue)> = Vec::new();
        let ghost given = chunk@;
        while chunk.len() > 0
            invariant
                chunk@.len() + rest@.len() == given.len(),
                chunk@ == given.take(chunk@.len() as int),
                forall|i: int| 0 <= i < rest@.len() ==> #[trigger] rest@[i] == given[given.len() - 1 - i],
            decreases chunk@.len(),
        {
            if let Some(entry) = chunk.pop() {
                rest.push(entry);
            }
        }
        if skip_first {
            rest.pop();
        }
        self.rest = rest;
        assert(self.pending() =~= if skip_first {
            views.drop_first()
        } else {
            views
        });
    }

    /// The next entry in term order, or `None` past the last.
    pub fn next(&mut self) -> (r: Result<Option<(Vec<u8>, FstValue)>, FtsError>)
        ensures
            final(self).same_walk(old(self)),
            // With an entry at hand, or past the last chunk, nothing is read.
            old(self).pending().len() > 0 || old(self).done() ==> old(self).hands_out(r, final(self)),
            // Otherwise the next chunk is read, from where the latest ended.
            old(self).pending().len() == 0 && !old(self).done() ==> match r {
                Ok(_) => exists|chunk: Vec<(Vec<u8>, FstValue)>, mid: Self| #[trigger]
                    old(self).reads_next(Ok(chunk)) && old(self).fed(entry_views(chunk@), &mid)
                        && #[trigger] mid.hands_out(r, final(self)),
                Err(e) => final(self).same_place(old(self)) && old(self).reads_next(Err(e)),
            },
            // A dictionary in term order is handed out as it stands.
            forall|dict: Seq<Entry>, k: int|
                old(self).walks(dict) && #[trigger] old(self).at(dict, k) ==> match r {
                    Ok(Some(entry)) => {
                        &&& k < dict.len()
                        &&& (entry.0@, entry.1) == dict[k]
                        &&& final(self).at(dict, k + 1)
                    },
                    Ok(None) => k == dict.len() && final(self).at(dict, k),
                    Err(_) => final(self).at(dict, k),
                },
    {
        let ghost start = *self;
        if self.rest.len() == 0 && !self.done {
            let read = self.fts.column_terms_from(
                &self.fst_bytes,
                self.column_id,
                &self.resume,
                TERMS_PER_CHUNK,
            );
            assert(start.reads_next(read)) by {
                assert(reads_terms(
                    start.fts(),
                    &start.fst_bytes(),
                    start.column_id(),
                    &start.resume,
                    TERMS_PER_CHUNK,
                    read,
                ));
            }
            match read {
                // A chunk that leaves nothing to hand out is a short one, and so the last.
                Ok(chunk) => self.feed(chunk),
                Err(e) => {
                    return Err(e);
                },
            }
        }
        let ghost mid = *self;
        proof {
            assert forall|dict: Seq<Entry>, k: int|
                start.walks(dict) && #[trigger] start.at(dict, k) implies mid.at(dict, k) && (
            mid.pending().len() == 0 ==> k == dict.len()) by {
                if start.pending().len() == 0 && !start.done() {
                    let chunk = choose|chunk: Vec<(Vec<u8>, FstValue)>|
                        start.fed(entry_views(chunk@), &mid) && #[trigger] start.reads_next(Ok(chunk));
                    lemma_fed_at(start, mid, dict, k, entry_views(chunk@));
                }
            }
        }
        let entry = self.rest.pop();
        proof {
            let n = mid.rest@.len();
            if n > 0 {
                assert(mid.pending()[0] == entry_views(mid.rest@)[n - 1]);
                assert(self.pending() =~= mid.pending().drop_first());
                assert forall|dict: Seq<Entry>, k: int|
                    start.walks(dict) && #[trigger] start.at(dict, k) implies {
                    &&& k < dict.len()
                    &&& mid.pending()[0] == dict[k]
                    &&& self.at(dict, k + 1)
                } by {
                    assert(mid.at(dict, k));
                    let read = k + mid.pending().len();
                    assert(mid.pending()[0] == dict.subrange(k, read)[0]);
                    assert(self.pending() =~= dict.subrange(k + 1, read));
                }
            } else {
                assert(self.pending() =~= mid.pending());
            }
            assert(mid.hands_out(Ok(entry), self));
        }
        Ok(entry)
    }
}

/// Reading the next chunk of a dictionary keeps the walk's place in it.
proof fn lemma_fed_at<R: FtsReader>(
    before: TermChunks<'_, R>,
    after: TermChunks<'_, R>,
    dict: Seq<Entry>,
    k: int,
    chunk: Seq<Entry>,
)
    requires
        before.at(dict, k),
        before.pending().len() == 0,
        !before.done(),
        ascending_terms(dict),
        is_chunk(dict, before.resume(), TERMS_PER_CHUNK as int, chunk),
        before.fed(chunk, &after),
    ensures
        after.at(dict, k),
{
    let limit = TERMS_PER_CHUNK as int;
    let from = choose|from: int| #[trigger] chunk_from(dict, before.resume(), limit, chunk, from);
    assert(chunk_from(dict, before.resume(), limit, chunk, from));
    if before.started() {
        // The read starts over at the term handed out last.
        assert(k > 0 && before.resume() == dict[k - 1].0);
        term_lt_asymmetric(dict[k - 1].0, dict[k - 1].0);
        if from > k - 1 {
            assert(term_lt(dict[k - 1].0, before.resume()));
        }
        if from < k - 1 {
            assert(!term_lt(dict[from].0, before.resume()));
            assert(term_lt(dict[from].0, dict[k - 1].0));
        }
        assert(from == k - 1);
        assert(chunk[0] == dict[k - 1]);
        assert(before.skips_first(chunk));
        assert(after.pending() =~= dict.subrange(k, from + chunk.len()));
    } else {
        assert(k == 0);
        if from > 0 {
            assert(term_lt(dict[0].0, before.resume()));
        }
        assert(from == 0);
        assert(after.pending() =~= dict.subrange(0, chunk.len() as int));
    }
    let read = from + chunk.len();
    assert(read == k + after.pending().len());
    if chunk.len() > 0 {
        assert(chunk.last() == dict[read - 1]);
    }
}

} // verus!
