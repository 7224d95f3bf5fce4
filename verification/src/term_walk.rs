//! The walk over all inputs' dictionaries at once, in term order.
use crate::batch::{lemma_hinted_both, total_hinted, Batch, BatchLimits};
use crate::dictionary::{ascending_terms, Entry, FstValue, FtsError, FtsReader, TermChunks};
use crate::errors::{is_read_error, read_error, BuildError};
use crate::term_heap::{head_le, head_le_antisymmetric, Head, TermHeap};
use crate::term_merge::{
    after_terms, at_first, entries_left, exhausted, first_terms, has_head, head_term, holders,
    is_next, lemma_entries_left, lemma_moved_on_within, lemma_next_unique, moved_on, next_term,
    nth_term,    stands_at, within, MergedTerm,
};
use crate::term_order::{same_term, term_lt, term_lt_asymmetric, term_lt_total, term_lt_transitive};
use vstd::multiset::Multiset;
use vstd::prelude::*;

verus! {

/// `error` comes from a read of a column of `fts` that failed.
pub open spec fn read_failed<R: FtsReader>(fts: &R, column_id: u32, error: BuildError) -> bool {
    exists|e: FtsError| #[trigger] is_read_error(e, error) && fails_with(fts, column_id, e)
}

/// A read of a column's dictionary in `fts` can fail with `e`.
pub open spec fn fails_with<R: FtsReader>(fts: &R, column_id: u32, e: FtsError) -> bool {
    ||| call_ensures(R::dict_bytes, (fts,), Err(e))
    ||| exists|walk: TermChunks<'_, R>|
        walk.fts() == fts && walk.column_id() == column_id && #[trigger] walk.reads_next(Err(e))
}

/// A k-way merge over the inputs' dictionaries.
pub struct TermWalk<'a, R> {
    cursors: Vec<TermChunks<'a, R>>,
    /// The dictionary value of each input's current term.
    values: Vec<Option<FstValue>>,
    heap: TermHeap,
    /// Each input's current term.
    heads: Ghost<Seq<Option<Seq<u8>>>>,
}

impl<'a, R: FtsReader> TermWalk<'a, R> {
    /// The heap holds each input's current term, and no other.
    pub closed spec fn wf(&self) -> bool {
        &&& self.cursors@.len() <= usize::MAX
        &&& self.values@.len() == self.cursors@.len()
        &&& self.heads@.len() == self.cursors@.len()
        &&& self.heap.wf()
        &&& forall|i: int| 0 <= i < self.values@.len() ==> (#[trigger] self.values@[i] is Some) == (self.heads@[i] is Some)
        &&& forall|h: Head| #[trigger] self.heap@.count(h) == if self.heads_at(h) {
            1nat
        } else {
            0
        }
    }

    spec fn heads_at(&self, h: Head) -> bool {
        h.1 < self.heads@.len() && self.heads@[h.1 as int] == Some(h.0)
    }

    /// How many inputs are walked.
    pub closed spec fn n_inputs(&self) -> nat {
        self.cursors@.len()
    }

    /// The index that input `i` is walked in.
    pub closed spec fn fts(&self, i: int) -> &'a R {
        self.cursors@[i].fts()
    }

    /// The column that is walked in input `i`.
    pub closed spec fn column_id(&self, i: int) -> u32 {
        self.cursors@[i].column_id()
    }

    /// `dicts` are the dictionaries that are walked.
    pub closed spec fn walks(&self, dicts: Seq<Seq<Entry>>) -> bool {
        &&& dicts.len() == self.cursors@.len()
        &&& forall|i: int| 0 <= i < dicts.len() ==> self.cursors@[i].walks(#[trigger] dicts[i])
    }

    /// Input `i` stands at entry `k` of `dict`, or past the last.
    spec fn input_at(&self, i: int, dict: Seq<Entry>, k: int) -> bool {
        &&& 0 <= k <= dict.len()
        &&& if k < dict.len() {
            &&& self.heads@[i] == Some(dict[k].0)
            &&& self.values@[i] == Some(dict[k].1)
            &&& self.cursors@[i].at(dict, k + 1)
        } else {
            &&& self.heads@[i] is None
            &&& self.values@[i] is None
            &&& self.cursors@[i].at(dict, k)
        }
    }

    /// Every input but `i` is as in `other`.
    spec fn same_but(&self, other: &Self, i: int) -> bool {
        &&& self.cursors@.len() == other.cursors@.len()
        &&& self.heads@.len() == other.heads@.len()
        &&& self.values@.len() == other.values@.len()
        &&& forall|j: int|
            0 <= j < other.cursors@.len() && j != i ==> #[trigger] self.cursors@[j] == other.cursors@[j]
        &&& forall|j: int|
            0 <= j < other.cursors@.len() && j != i ==> #[trigger] self.heads@[j] == other.heads@[j]
        &&& forall|j: int|
            0 <= j < other.cursors@.len() && j != i ==> #[trigger] self.values@[j] == other.values@[j]
    }

    /// Every input stands at the entry that `pos` says.
    pub closed spec fn at(&self, dicts: Seq<Seq<Entry>>, pos: Seq<int>) -> bool {
        &&& pos.len() == dicts.len()
        &&& dicts.len() == self.cursors@.len()
        &&& forall|i: int| 0 <= i < dicts.len() ==> self.input_at(i, #[trigger] dicts[i], pos[i])
    }

    /// Both walk the same columns of the same dictionaries.
    pub closed spec fn same_walks(&self, other: &Self) -> bool {
        &&& self.cursors@.len() == other.cursors@.len()
        &&& forall|i: int|
            0 <= i < self.cursors@.len() ==> (#[trigger] self.cursors@[i]).same_walk(&other.cursors@[i])
    }

    /// A walk walks the same dictionaries as itself.
    pub proof fn lemma_same_as_itself(&self)
        ensures
            self.same_walks(self),
    {
    }

    /// Walking the same dictionaries is transitive, and keeps what is walked.
    pub proof fn lemma_same_walks(a: &Self, b: &Self, c: &Self)
        requires
            a.same_walks(b),
            b.same_walks(c),
        ensures
            a.same_walks(c),
            a.n_inputs() == c.n_inputs(),
            forall|i: int| 0 <= i < a.n_inputs() ==> #[trigger] a.fts(i) == c.fts(i),
            forall|i: int| 0 <= i < a.n_inputs() ==> #[trigger] a.column_id(i) == c.column_id(i),
            forall|dicts: Seq<Seq<Entry>>| #[trigger] c.walks(dicts) ==> a.walks(dicts),
    {
        assert forall|i: int| 0 <= i < a.cursors@.len() implies (#[trigger] a.cursors@[i]).same_walk(
            &c.cursors@[i],
        ) by {
            assert(b.cursors@[i].same_walk(&c.cursors@[i]));
        }
    }

    /// Move input `i` on to its next term.
    fn advance(&mut self, i: usize) -> (r: Result<(), BuildError>)
        requires
            old(self).wf(),
            i < old(self).cursors@.len(),
            old(self).heads@[i as int] is None,
        ensures
            final(self).same_walks(old(self)),
            r is Ok ==> final(self).wf(),
            r is Ok ==> final(self).same_but(old(self), i as int),
            r matches Err(e) ==> read_failed(
                old(self).cursors@[i as int].fts(),
                old(self).cursors@[i as int].column_id(),
                e,
            ),
            forall|dict: Seq<Entry>, k: int|
                old(self).cursors@[i as int].walks(dict) && #[trigger] old(self).cursors@[i as int].at(dict, k)
                    ==> (r is Ok ==> final(self).input_at(i as int, dict, k)),
    {
        let ghost start = *self;
        let next = self.cursors[i].next();
        match next {
            Ok(Some((term, value))) => {
                let ghost head = (term@, i);
                proof {
                    self.heads@ = self.heads@.update(i as int, Some(term@));
                }
                self.values[i] = Some(value);
                self.heap.push(term, i);
                proof {
                    broadcast use vstd::multiset::group_multiset_axioms;

                    assert forall|h: Head| #[trigger] self.heap@.count(h) == if self.heads_at(h) {
                        1nat
                    } else {
                        0
                    } by {
                        assert(start.heap@.count(h) == if start.heads_at(h) {
                            1nat
                        } else {
                            0
                        });
                    }
                }
                Ok(())
            },
            Ok(None) => {
                self.values[i] = None;
                proof {
                    assert forall|h: Head| #[trigger] self.heap@.count(h) == if self.heads_at(h) {
                        1nat
                    } else {
                        0
                    } by {
                        assert(start.heap@.count(h) == if start.heads_at(h) {
                            1nat
                        } else {
                            0
                        });
                    }
                }
                Ok(())
            },
            Err(e) => {
                proof {
                    let walk = start.cursors@[i as int];
                    assert(walk.fts() == start.cursors@[i as int].fts() && walk.reads_next(Err(e)));
                    assert(fails_with(walk.fts(), walk.column_id(), e));
                }
                let error = read_error(e);
                Err(error)
            },
        }
    }

    /// Start a walk of `column_id` in each of `readers`.
    pub fn new(readers: &Vec<&'a R>, column_id: u32) -> (r: Result<Self, BuildError>)
        ensures
            r matches Ok(walk) ==> {
                &&& walk.wf()
                &&& walk.n_inputs() == readers@.len()
                &&& forall|i: int| 0 <= i < readers@.len() ==> #[trigger] walk.fts(i) == readers@[i]
                &&& forall|i: int| 0 <= i < readers@.len() ==> #[trigger] walk.column_id(i) == column_id
            },
            r matches Err(e) ==> exists|i: int|
                0 <= i < readers@.len() && read_failed(#[trigger] readers@[i], column_id, e),
            r matches Ok(walk) ==> forall|dicts: Seq<Seq<Entry>>| #[trigger]
                are_dictionaries(readers@, column_id, dicts) ==> walk.walks(dicts) && walk.at(
                    dicts,
                    at_first(dicts.len()),
                ),
    {
        let mut cursors: Vec<TermChunks<'a, R>> = Vec::new();
        for i in 0..readers.len()
            invariant
                cursors@.len() == i,
                forall|j: int|
                    0 <= j < i ==> {
                        &&& (#[trigger] cursors@[j]).at_start()
                        &&& cursors@[j].fts() == readers@[j]
                        &&& cursors@[j].column_id() == column_id
                        &&& call_ensures(R::dict_bytes, (readers@[j],), Ok(cursors@[j].fst_bytes()))
                    },
        {
            match TermChunks::new(readers[i], column_id) {
                Ok(chunks) => {
                    cursors.push(chunks);
                },
                Err(e) => {
                    proof {
                        assert(fails_with(readers@[i as int], column_id, e));
                    }
                    let error = read_error(e);
                    proof {
                        assert(is_read_error(e, error));
                        assert(read_failed(readers@[i as int], column_id, error));
                    }
                    return Err(error);
                },
            }
        }
        let n: usize = cursors.len();
        let mut values: Vec<Option<FstValue>> = Vec::new();
        for i in 0..n
            invariant
                values@.len() == i,
                forall|j: int| 0 <= j < i ==> #[trigger] values@[j] is None,
        {
            values.push(None);
        }
        let mut walk = TermWalk {
            cursors,
            values,
            heap: TermHeap::new(),
            heads: Ghost(Seq::new(n as nat, |i: int| None)),
        };
        let ghost start = walk;
        proof {
            broadcast use vstd::multiset::group_multiset_axioms;

            assert(walk.cursors.len() <= usize::MAX);
            assert(walk.wf());
            assert forall|dicts: Seq<Seq<Entry>>| #[trigger]
                are_dictionaries(readers@, column_id, dicts) implies walk.walks(dicts) by {
                assert forall|i: int| 0 <= i < dicts.len() implies walk.cursors@[i].walks(#[trigger] dicts[i]) by {
                    assert(walk.cursors@[i].at_start());
                    assert(dictionary_of(readers@[i], column_id, dicts[i]));
                }
            }
        }
        for i in 0..n
            invariant
                n == readers@.len(),
                n == start.cursors@.len(),
                walk.wf(),
                walk.same_walks(&start),
                walk.cursors@.len() == n,
                forall|j: int|
                    i <= j < n ==> #[trigger] walk.cursors@[j] == start.cursors@[j] && walk.heads@[j] is None,
                forall|j: int|
                    0 <= j < n ==> (#[trigger] start.cursors@[j]).at_start() && start.cursors@[j].fts()
                        == readers@[j] && start.cursors@[j].column_id() == column_id,
                forall|dicts: Seq<Seq<Entry>>| #[trigger]
                    are_dictionaries(readers@, column_id, dicts) ==> start.walks(dicts),
                forall|dicts: Seq<Seq<Entry>>, j: int|
                    are_dictionaries(readers@, column_id, dicts) && 0 <= j < i ==> walk.input_at(
                        j,
                        #[trigger] dicts[j],
                        0,
                    ),
        {
            let ghost before = walk;
            assert(walk.cursors@[i as int] == start.cursors@[i as int]);
            let r = walk.advance(i);
            proof {
                assert(before.cursors@[i as int] == start.cursors@[i as int]);
                TermWalk::lemma_same_walks(&walk, &before, &start);
                assert forall|dicts: Seq<Seq<Entry>>| #[trigger]
                    are_dictionaries(readers@, column_id, dicts) && r is Ok implies walk.input_at(
                    i as int,
                    dicts[i as int],
                    0,
                ) by {
                    assert(start.cursors@[i as int].walks(dicts[i as int]));
                    lemma_start_at(start.cursors@[i as int], dicts[i as int]);
                    assert(before.cursors@[i as int].at(dicts[i as int], 0));
                }
            }
            match r {
                Ok(()) => {
                    proof {
                        assert forall|j: int| i + 1 <= j < n implies #[trigger] walk.cursors@[j]
                            == start.cursors@[j] && walk.heads@[j] is None by {
                            assert(before.cursors@[j] == start.cursors@[j]);
                            assert(before.heads@[j] is None);
                            assert(walk.cursors@[j] == before.cursors@[j]);
                            assert(walk.heads@[j] == before.heads@[j]);
                        }
                        assert forall|dicts: Seq<Seq<Entry>>, j: int|
                            are_dictionaries(readers@, column_id, dicts) && 0 <= j < i + 1 implies walk.input_at(
                            j,
                            #[trigger] dicts[j],
                            0,
                        ) by {
                            if j < i {
                                assert(before.input_at(j, dicts[j], 0));
                                assert(walk.cursors@[j] == before.cursors@[j]);
                            }
                        }
                    }
                },
                Err(e) => {
                    return Err(e);
                },
            }
        }
        proof {
            TermWalk::lemma_same_walks(&walk, &start, &start);
            assert forall|i: int| 0 <= i < readers@.len() implies #[trigger] walk.fts(i) == readers@[i] by {
                assert(start.cursors@[i].at_start());
                assert(start.fts(i) == readers@[i]);
            }
            assert forall|i: int| 0 <= i < readers@.len() implies #[trigger] walk.column_id(i) == column_id by {
                assert(start.cursors@[i].at_start());
                assert(start.column_id(i) == column_id);
            }
        }
        Ok(walk)
    }
    /// The inputs hold ordered dictionaries, and each stands somewhere in its own.
    pub open spec fn in_order(&self) -> bool {
        exists|dicts: Seq<Seq<Entry>>, pos: Seq<int>| self.walks(dicts) && #[trigger] self.at(dicts, pos)
    }

    /// Take the first head off, with the input that stands at it and its value.
    fn take_first(&mut self) -> (r: Option<(Vec<u8>, usize, FstValue)>)
        requires
            old(self).wf(),
        ensures
            final(self).wf(),
            final(self).cursors@ == old(self).cursors@,
            r is None <==> old(self).heap@ == Multiset::<Head>::empty(),
            r is None ==> final(self).heads@ == old(self).heads@ && final(self).values@ == old(self).values@,
            r matches Some((term, i, value)) ==> {
                &&& i < old(self).cursors@.len()
                &&& old(self).heap.is_first((term@, i))
                &&& old(self).heads@[i as int] == Some(term@)
                &&& old(self).values@[i as int] == Some(value)
                &&& final(self).heads@ == old(self).heads@.update(i as int, None)
                &&& final(self).values@ == old(self).values@.update(i as int, None)
            },
    {
        let ghost start = *self;
        match self.heap.pop() {
            None => None,
            Some((term, i)) => {
                proof {
                    broadcast use vstd::multiset::group_multiset_axioms;

                    assert(start.heap@.count((term@, i)) > 0);
                    assert(start.heads_at((term@, i)));
                    assert(start.values@[i as int] is Some);
                    self.heads@ = self.heads@.update(i as int, None);
                    assert forall|h: Head| #[trigger] self.heap@.count(h) == if self.heads_at(h) {
                        1nat
                    } else {
                        0
                    } by {
                        assert(start.heap@.count(h) == if start.heads_at(h) {
                            1nat
                        } else {
                            0
                        });
                    }
                }
                let value = self.values[i].unwrap();
                self.values[i] = None;
                Some((term, i, value))
            },
        }
    }

    /// The first head of the heap is the first of the terms that the inputs stand at.
    proof fn lemma_first_is_next(&self, dicts: Seq<Seq<Entry>>, pos: Seq<int>, head: Head)
        requires
            self.wf(),
            self.at(dicts, pos),
            self.heap.is_first(head),
        ensures
            is_next(dicts, pos, head.0),
            stands_at(dicts, pos, head.0, head.1 as int),
            forall|j: int| #[trigger] stands_at(dicts, pos, head.0, j) ==> head.1 <= j,
    {
        assert(self.heap@.count(head) > 0);
        assert(self.heads_at(head));
        assert(self.input_at(head.1 as int, dicts[head.1 as int], pos[head.1 as int]));
        assert(has_head(dicts, pos, head.1 as int));
        assert forall|j: int| #[trigger] has_head(dicts, pos, j) implies head_le(
            head,
            (head_term(dicts, pos, j), j as usize),
        ) && j == j as usize by {
            assert(self.input_at(j, dicts[j], pos[j]));
            let other = (head_term(dicts, pos, j), j as usize);
            assert(self.heads_at(other));
            assert(self.heap@.count(other) == 1);
            assert(self.heap@.contains(other));
        }
        assert forall|j: int| #[trigger] has_head(dicts, pos, j) implies !term_lt(
            head_term(dicts, pos, j),
            head.0,
        ) by {
            term_lt_asymmetric(head_term(dicts, pos, j), head.0);
            term_lt_asymmetric(head.0, head.0);
        }
        assert forall|j: int| #[trigger] stands_at(dicts, pos, head.0, j) implies head.1 <= j by {
            assert(has_head(dicts, pos, j));
            term_lt_asymmetric(head.0, head.0);
        }
    }

    /// An empty heap means that every input has been walked to its end.
    proof fn lemma_empty_is_exhausted(&self, dicts: Seq<Seq<Entry>>, pos: Seq<int>)
        requires
            self.wf(),
            self.at(dicts, pos),
        ensures
            self.heap@ == Multiset::<Head>::empty() <==> exhausted(dicts, pos),
    {
        broadcast use vstd::multiset::group_multiset_axioms;

        if self.heap@ == Multiset::<Head>::empty() {
            assert forall|i: int| !#[trigger] has_head(dicts, pos, i) by {
                if has_head(dicts, pos, i) {
                    assert(self.input_at(i, dicts[i], pos[i]));
                            let other = (head_term(dicts, pos, i), i as usize);
                    assert(self.heads_at(other));
                    assert(self.heap@.count(other) == 1);
                }
            }
        } else if exhausted(dicts, pos) {
            assert forall|h: Head| self.heap@.count(h) == 0 by {
                if self.heads_at(h) {
                    assert(self.input_at(h.1 as int, dicts[h.1 as int], pos[h.1 as int]));
                    assert(has_head(dicts, pos, h.1 as int));
                }
            }
            assert(self.heap@ =~= Multiset::<Head>::empty());
        }
    }

    /// The state in the middle of a term: every input but `i` stands where it does once those
    /// before `i` have moved on, and `i` was taken off its term.
    spec fn midway(&self, dicts: Seq<Seq<Entry>>, pos: Seq<int>, term: Seq<u8>, i: int, value: FstValue) -> bool {
        &&& pos.len() == dicts.len()
        &&& dicts.len() == self.cursors@.len()
        &&& is_next(dicts, pos, term)
        &&& stands_at(dicts, pos, term, i)
        &&& value == dicts[i][pos[i]].1
        &&& self.cursors@[i].at(dicts[i], pos[i] + 1)
        &&& forall|j: int|
            0 <= j < dicts.len() && j != i ==> self.input_at(
                j,
                #[trigger] dicts[j],
                moved_on(dicts, pos, term, i)[j],
            )
    }

    /// Moving input `i` on from the middle of a term leaves every input up to it moved on.
    proof fn lemma_midway_advanced(
        before: &Self,
        after: &Self,
        dicts: Seq<Seq<Entry>>,
        pos: Seq<int>,
        term: Seq<u8>,
        i: int,
        value: FstValue,
    )
        requires
            before.midway(dicts, pos, term, i, value),
            after.same_but(before, i),
            after.input_at(i, dicts[i], pos[i] + 1),
        ensures
            after.at(dicts, moved_on(dicts, pos, term, i + 1)),
            holders(dicts, pos, term, i + 1) == holders(dicts, pos, term, i).push((i as usize, value)),
    {
        let p = moved_on(dicts, pos, term, i + 1);
        assert forall|j: int| 0 <= j < dicts.len() implies after.input_at(j, #[trigger] dicts[j], p[j]) by {
            if j != i {
                assert(after.cursors@[j] == before.cursors@[j]);
                assert(before.input_at(j, dicts[j], moved_on(dicts, pos, term, i)[j]));
                assert(p[j] == moved_on(dicts, pos, term, i)[j]);
            }
        }
    }

    /// Taking the next input that stands at the term off its heap is the middle of it again.
    proof fn lemma_midway_taken(
        before: &Self,
        after: &Self,
        dicts: Seq<Seq<Entry>>,
        pos: Seq<int>,
        term: Seq<u8>,
        b: int,
        i: int,
        value: FstValue,
    )
        requires
            before.walks(dicts),
            before.wf(),
            is_next(dicts, pos, term),
            pos.len() == dicts.len(),
            0 <= b <= dicts.len(),
            before.at(dicts, moved_on(dicts, pos, term, b)),
            0 <= i < before.cursors@.len(),
            i <= usize::MAX,
            before.heap.is_first((term, i as usize)),
            before.values@[i] == Some(value),
            after.cursors@ == before.cursors@,
            after.heads@ == before.heads@.update(i, None),
            after.values@ == before.values@.update(i, None),
        ensures
            b <= i,
            after.midway(dicts, pos, term, i, value),
            holders(dicts, pos, term, i) == holders(dicts, pos, term, b),
    {
        let p = moved_on(dicts, pos, term, b);
        before.lemma_first_is_next(dicts, p, (term, i as usize));
        lemma_walks_ascending(*before, dicts);
        lemma_ahead(dicts, pos, term, b);
        assert(has_head(dicts, p, i));
        assert(stands_at(dicts, pos, term, i));
        assert(before.input_at(i, dicts[i], p[i]));
        assert forall|j: int| b <= j < i implies !#[trigger] stands_at(dicts, pos, term, j) by {
            if stands_at(dicts, pos, term, j) {
                assert(stands_at(dicts, p, term, j));
            }
        }
        lemma_none_between(dicts, pos, term, b, i);
        assert forall|j: int| 0 <= j < dicts.len() && j != i implies after.input_at(
            j,
            #[trigger] dicts[j],
            moved_on(dicts, pos, term, i)[j],
        ) by {
            assert(before.input_at(j, dicts[j], p[j]));
        }
    }

    /// Walk the next term off the dictionaries and put it in `batch`, with every input that holds
    /// it. `false` when there is none left.
    pub fn next_term(&mut self, batch: &mut Batch) -> (r: Result<bool, BuildError>)
        requires
            old(self).wf(),
            old(self).in_order(),
            old(batch).wf(),
        ensures
            final(self).same_walks(old(self)),
            r is Ok ==> final(self).wf() && final(batch).wf(),
            r matches Ok(more) ==> {
                &&& !more ==> final(batch)@ == old(batch)@ && final(batch).inputs() == old(batch).inputs()
                &&& more ==> final(batch)@.len() == old(batch)@.len() + 1
                &&& more ==> final(batch)@.drop_last() == old(batch)@
                &&& more ==> final(batch).inputs() == old(batch).inputs() + final(batch)@.last().1
                &&& more ==> inputs_below(final(batch)@.last().1, old(self).n_inputs())
            },
            r matches Err(e) ==> exists|i: int|
                0 <= i < old(self).n_inputs() && read_failed(
                    #[trigger] old(self).fts(i),
                    old(self).column_id(i),
                    e,
                ),
            r matches Ok(more) ==> forall|dicts: Seq<Seq<Entry>>, pos: Seq<int>|
                old(self).walks(dicts) && #[trigger] old(self).at(dicts, pos) ==> {
                    &&& more == !exhausted(dicts, pos)
                    &&& !more ==> final(self).at(dicts, pos)
                    &&& more ==> final(self).at(
                        dicts,
                        moved_on(dicts, pos, next_term(dicts, pos), dicts.len() as int),
                    )
                    &&& more ==> final(batch)@ == old(batch)@.push(
                        (
                            next_term(dicts, pos),
                            holders(dicts, pos, next_term(dicts, pos), dicts.len() as int),
                        ),
                    )
                },
    {
        let ghost start = *self;
        let ghost n = self.cursors@.len();
        let ghost (dicts0, pos0) = choose|dicts: Seq<Seq<Entry>>, pos: Seq<int>|
            self.walks(dicts) && #[trigger] self.at(dicts, pos);
        let inputs_start: usize = batch.n_inputs();
        let (term, first, first_value) = match self.take_first() {
            Some(head) => head,
            None => {
                proof {
                    assert forall|dicts: Seq<Seq<Entry>>, pos: Seq<int>|
                        start.walks(dicts) && #[trigger] start.at(dicts, pos) implies exhausted(dicts, pos)
                        && self.at(dicts, pos) by {
                        start.lemma_empty_is_exhausted(dicts, pos);
                        assert forall|i: int| 0 <= i < dicts.len() implies self.input_at(
                            i,
                            #[trigger] dicts[i],
                            pos[i],
                        ) by {
                            assert(start.input_at(i, dicts[i], pos[i]));
                        }
                    }
                }
                return Ok(false);
            },
        };
        let mut i: usize = first;
        let mut value: FstValue = first_value;
        proof {
            assert forall|dicts: Seq<Seq<Entry>>, pos: Seq<int>|
                start.walks(dicts) && #[trigger] start.at(dicts, pos) implies {
                &&& self.midway(dicts, pos, term@, i as int, value)
                &&& holders(dicts, pos, term@, i as int) == Seq::<(usize, FstValue)>::empty()
                &&& !exhausted(dicts, pos)
            } by {
                start.lemma_first_is_next(dicts, pos, (term@, i));
                assert(moved_on(dicts, pos, term@, 0) =~= pos);
                TermWalk::lemma_midway_taken(&start, self, dicts, pos, term@, 0, i as int, value);
                assert(has_head(dicts, pos, i as int));
            }
            assert(batch.inputs() =~= old(batch).inputs() + Seq::<(usize, FstValue)>::empty());
        }
        let mut more_inputs: bool = true;
        while more_inputs
            invariant
                self.wf(),
                start == *old(self),
                n == self.cursors@.len(),
                n == start.cursors@.len(),
                self.same_walks(&start),
                start.walks(dicts0),
                start.at(dicts0, pos0),
                batch.wf(),
                batch@ == old(batch)@,
                inputs_start == old(batch).inputs().len(),
                inputs_start <= batch.inputs().len(),
                batch.inputs().take(inputs_start as int) == old(batch).inputs(),
                inputs_below(batch.inputs().skip(inputs_start as int), n),
                more_inputs ==> i < n && self.heads@[i as int] is None,
                more_inputs ==> forall|dicts: Seq<Seq<Entry>>, pos: Seq<int>|
                    start.walks(dicts) && #[trigger] start.at(dicts, pos) ==> {
                        &&& self.midway(dicts, pos, term@, i as int, value)
                        &&& batch.inputs().skip(inputs_start as int) == holders(dicts, pos, term@, i as int)
                        &&& !exhausted(dicts, pos)
                    },
                !more_inputs ==> forall|dicts: Seq<Seq<Entry>>, pos: Seq<int>|
                    start.walks(dicts) && #[trigger] start.at(dicts, pos) ==> {
                        &&& is_next(dicts, pos, term@)
                        &&& self.at(dicts, moved_on(dicts, pos, term@, dicts.len() as int))
                        &&& batch.inputs().skip(inputs_start as int) == holders(
                            dicts,
                            pos,
                            term@,
                            dicts.len() as int,
                        )
                        &&& !exhausted(dicts, pos)
                    },
            decreases
                if more_inputs {
                    n - i
                } else {
                    0
                },
        {
            let ghost lifted = *self;
            let ghost inputs0 = batch.inputs();
            batch.add_input(i, value);
            let advanced = self.advance(i);
            if let Err(e) = advanced {
                proof {
                    assert(lifted.cursors@[i as int].same_walk(&start.cursors@[i as int]));
                    assert(read_failed(start.fts(i as int), start.column_id(i as int), e));
                    TermWalk::lemma_same_walks(self, &lifted, &start);
                }
                return Err(e);
            }
            proof {
                TermWalk::lemma_same_walks(self, &lifted, &start);
                assert(batch.inputs().take(inputs_start as int) =~= inputs0.take(inputs_start as int));
                assert(batch.inputs().skip(inputs_start as int) =~= inputs0.skip(inputs_start as int).push((i, value)));
                assert forall|dicts: Seq<Seq<Entry>>, pos: Seq<int>|
                    start.walks(dicts) && #[trigger] start.at(dicts, pos) implies {
                    &&& is_next(dicts, pos, term@)
                    &&& self.walks(dicts)
                    &&& self.at(dicts, moved_on(dicts, pos, term@, i + 1))
                    &&& batch.inputs().skip(inputs_start as int) == holders(dicts, pos, term@, i + 1)
                } by {
                    assert(lifted.midway(dicts, pos, term@, i as int, value));
                    TermWalk::lemma_same_walks(&lifted, &lifted, &start);
                    assert(lifted.cursors@[i as int].walks(dicts[i as int]));
                    assert(lifted.cursors@[i as int].at(dicts[i as int], pos[i as int] + 1));
                    TermWalk::lemma_midway_advanced(&lifted, self, dicts, pos, term@, i as int, value);
                }
            }
            let ghost before = *self;
            let same: bool = match self.heap.peek() {
                Some(head) => {
                    let same: bool = same_term(&head.0, &term);
                    proof {
                        assert(before.heap.is_first((head.0@, head.1)));
                        lemma_one_first(before.heap);
                    }
                    same
                },
                None => false,
            };
            let ghost b = i + 1;
            if same {
                match self.take_first() {
                    Some((popped, next, next_value)) => {
                        proof {
                            assert(before.heap.is_first((popped@, next)));
                            assert(popped@ == term@);
                            assert forall|dicts: Seq<Seq<Entry>>, pos: Seq<int>|
                                start.walks(dicts) && #[trigger] start.at(dicts, pos) implies {
                                &&& b <= next
                                &&& self.midway(dicts, pos, term@, next as int, next_value)
                                &&& holders(dicts, pos, term@, next as int) == holders(dicts, pos, term@, b)
                            } by {
                                TermWalk::lemma_midway_taken(
                                    &before,
                                    self,
                                    dicts,
                                    pos,
                                    term@,
                                    b,
                                    next as int,
                                    next_value,
                                );
                            }
                            assert(start.at(dicts0, pos0));
                        }
                        i = next;
                        value = next_value;
                    },
                    None => {
                        assert(false);
                    },
                }
            } else {
                proof {
                    assert forall|dicts: Seq<Seq<Entry>>, pos: Seq<int>|
                        start.walks(dicts) && #[trigger] start.at(dicts, pos) implies {
                        &&& moved_on(dicts, pos, term@, dicts.len() as int) == moved_on(dicts, pos, term@, b)
                        &&& holders(dicts, pos, term@, dicts.len() as int) == holders(dicts, pos, term@, b)
                    } by {
                        self.lemma_term_complete(dicts, pos, term@, b);
                    }
                }
                more_inputs = false;
            }
        }
        batch.push_term(&term, inputs_start);
        proof {
            assert(batch@.drop_last() =~= old(batch)@);
            assert(batch.inputs() =~= old(batch).inputs() + batch@.last().1);
            assert forall|dicts: Seq<Seq<Entry>>, pos: Seq<int>|
                start.walks(dicts) && #[trigger] start.at(dicts, pos) implies next_term(dicts, pos) == term@ by {
                lemma_next_unique(dicts, pos, term@);
            }
        }
        Ok(true)
    }

    /// When no head is at the term any more, every input that held it has moved on.
    proof fn lemma_term_complete(&self, dicts: Seq<Seq<Entry>>, pos: Seq<int>, term: Seq<u8>, b: int)
        requires
            self.wf(),
            self.walks(dicts),
            pos.len() == dicts.len(),
            0 <= b <= dicts.len(),
            is_next(dicts, pos, term),
            self.at(dicts, moved_on(dicts, pos, term, b)),
            forall|head: Head| self.heap.is_first(head) ==> head.0 != term,
        ensures
            moved_on(dicts, pos, term, dicts.len() as int) == moved_on(dicts, pos, term, b),
            holders(dicts, pos, term, dicts.len() as int) == holders(dicts, pos, term, b),
    {
        let p = moved_on(dicts, pos, term, b);
        lemma_walks_ascending(*self, dicts);
        lemma_ahead(dicts, pos, term, b);
        assert forall|j: int| b <= j < dicts.len() implies !#[trigger] stands_at(dicts, pos, term, j) by {
            if stands_at(dicts, pos, term, j) {
                assert(p[j] == pos[j]);
                assert(has_head(dicts, p, j));
                self.lemma_least_head(dicts, p, term, j);
            }
        }
        lemma_none_between(dicts, pos, term, b, dicts.len() as int);
    }

    /// A term that an input stands at, with none before it, is that of some first head.
    proof fn lemma_least_head(&self, dicts: Seq<Seq<Entry>>, pos: Seq<int>, term: Seq<u8>, j: int)
        requires
            self.wf(),
            self.at(dicts, pos),
            stands_at(dicts, pos, term, j),
            forall|i: int| #[trigger] has_head(dicts, pos, i) ==> !term_lt(head_term(dicts, pos, i), term),
        ensures
            exists|head: Head| self.heap.is_first(head) && head.0 == term,
        decreases j,
    {
        if exists|i: int| 0 <= i < j && #[trigger] stands_at(dicts, pos, term, i) {
            let i = choose|i: int| 0 <= i < j && #[trigger] stands_at(dicts, pos, term, i);
            self.lemma_least_head(dicts, pos, term, i);
        } else {
            assert(self.input_at(j, dicts[j], pos[j]));
            let head = (term, j as usize);
            assert(self.heads_at(head));
            assert(self.heap@.count(head) == 1);
            assert forall|other: Head| #[trigger] self.heap@.contains(other) implies head_le(head, other) by {
                assert(self.heap@.count(other) > 0);
                assert(self.heads_at(other));
                let i = other.1 as int;
                assert(self.input_at(i, dicts[i], pos[i]));
                assert(has_head(dicts, pos, i));
                term_lt_total(term, other.0);
                if other.0 == term {
                    assert(stands_at(dicts, pos, term, i));
                }
            }
            assert(self.heap.is_first(head));
        }
    }
    /// Every position is within its dictionary.
    pub proof fn lemma_at_within(&self, dicts: Seq<Seq<Entry>>, pos: Seq<int>)
        requires
            self.at(dicts, pos),
        ensures
            within(dicts, pos),
    {
        assert forall|i: int| 0 <= i < dicts.len() implies 0 <= #[trigger] pos[i] <= dicts[i].len() by {
            assert(self.input_at(i, dicts[i], pos[i]));
        }
    }

    /// Walk terms into an empty `batch` until it is full, or the next one would take it over its
    /// most posting bytes, or there is none left. `over` holds the term that was walked and did
    /// not fit, before and after: it begins the next batch. `false` when there is none left.
    pub fn fill_batch(
        &mut self,
        batch: &mut Batch,
        over: &mut Batch,
        limits: &BatchLimits,
    ) -> (r: Result<bool, BuildError>)
        requires
            old(self).wf(),
            old(self).in_order(),
            old(batch).wf(),
            old(batch)@.len() == 0,
            old(batch).inputs().len() == 0,
            at_hand(*old(over), old(self).n_inputs()),
            old(over)@.len() <= 1,
        ensures
            final(self).same_walks(old(self)),
            r is Ok ==> {
                &&& final(self).wf()
                &&& final(self).in_order()
                &&& at_hand(*final(batch), old(self).n_inputs())
                &&& at_hand(*final(over), old(self).n_inputs())
                &&& final(over)@.len() <= 1
                &&& within_limits(final(batch)@, *limits)
            },
            r matches Ok(more) ==> {
                &&& more ==> final(batch)@.len() > 0
                &&& more ==> final(batch).is_full(*limits) || final(over)@.len() == 1
                    && !final(batch).room_for(*final(over), *limits)
                &&& !more ==> final(over)@.len() == 0
            },
            r matches Err(e) ==> exists|i: int|
                0 <= i < old(self).n_inputs() && read_failed(
                    #[trigger] old(self).fts(i),
                    old(self).column_id(i),
                    e,
                ),
            r matches Ok(more) ==> final(batch)@.len() + final(over)@.len() >= old(over)@.len()
                && forall|dicts: Seq<Seq<Entry>>, pos: Seq<int>|
                old(self).walks(dicts) && #[trigger] old(self).at(dicts, pos) ==> {
                    let m = (final(batch)@.len() + final(over)@.len() - old(over)@.len()) as nat;
                    &&& final(self).at(dicts, after_terms(dicts, pos, m))
                    &&& final(batch)@ + final(over)@ == old(over)@ + first_terms(dicts, pos, m)
                    &&& !more ==> exhausted(dicts, after_terms(dicts, pos, m))
                    &&& goes_on(dicts, pos, m)
                },
    {
        let ghost start = *self;
        let ghost first = over@;
        let ghost (dicts0, pos0) = choose|dicts: Seq<Seq<Entry>>, pos: Seq<int>|
            self.walks(dicts) && #[trigger] self.at(dicts, pos);
        let ghost mut walked: nat = 0;
        proof {
            self.lemma_same_as_itself();
            assert(inputs_of(batch@) =~= batch.inputs());
            self.lemma_at_within(dicts0, pos0);
            lemma_entries_after(dicts0, pos0, 0);
            assert forall|dicts: Seq<Seq<Entry>>, pos: Seq<int>|
                start.walks(dicts) && #[trigger] start.at(dicts, pos) implies batch@ + over@ == first
                + first_terms(dicts, pos, walked) by {
                assert(batch@ + over@ =~= first + first_terms(dicts, pos, walked));
            }
        }
        loop
            invariant
                start == *old(self),
                first == old(over)@,
                self.wf(),
                self.same_walks(&start),
                start.walks(dicts0),
                start.at(dicts0, pos0),
                within(dicts0, pos0),
                goes_on(dicts0, pos0, walked),
                at_hand(*batch, start.n_inputs()),
                at_hand(*over, start.n_inputs()),
                over@.len() <= 1,
                first.len() <= 1,
                batch@.len() + over@.len() == first.len() + walked,
                within_limits(batch@, *limits),
                batch@.len() > 0 ==> !batch.is_full(*limits),
                batch@.len() > 0 ==> over@.len() == 0,
                forall|dicts: Seq<Seq<Entry>>, pos: Seq<int>|
                    start.walks(dicts) && #[trigger] start.at(dicts, pos) ==> {
                        &&& self.at(dicts, after_terms(dicts, pos, walked))
                        &&& batch@ + over@ == first + first_terms(dicts, pos, walked)
                        &&& goes_on(dicts, pos, walked)
                    },
            decreases
                entries_left(dicts0, after_terms(dicts0, pos0, walked), dicts0.len() as int) + over@.len(),
        {
            let ghost measure = entries_left(
                dicts0,
                after_terms(dicts0, pos0, walked),
                dicts0.len() as int,
            ) + over@.len();
            proof {
                lemma_entries_after(dicts0, pos0, walked);
                start.lemma_same_as_itself();
                TermWalk::lemma_same_walks(self, &start, &start);
                assert(self.walks(dicts0) && self.at(dicts0, after_terms(dicts0, pos0, walked)));
            }
            if over.is_empty() {
                let ghost before = *self;
                assert(inputs_of(over@) =~= Seq::empty());
                let r = self.next_term(over);
                proof {
                    TermWalk::lemma_same_walks(self, &before, &start);
                }
                match r {
                    Err(e) => {
                        return Err(e);
                    },
                    Ok(more) => {
                        if !more {
                            proof {
                                assert(over@.len() == 0);
                                assert(walked == (batch@.len() + over@.len() - first.len()) as nat);
                                assert forall|dicts: Seq<Seq<Entry>>, pos: Seq<int>|
                                    start.walks(dicts) && #[trigger] start.at(dicts, pos) implies {
                                    &&& self.at(dicts, after_terms(dicts, pos, walked))
                                    &&& batch@ + over@ == first + first_terms(dicts, pos, walked)
                                    &&& exhausted(dicts, after_terms(dicts, pos, walked))
                                    &&& goes_on(dicts, pos, walked)
                                } by {
                                    assert(before.walks(dicts) && before.at(
                                        dicts,
                                        after_terms(dicts, pos, walked),
                                    ));
                                }
                            }
                            return Ok(false);
                        }
                        proof {
                            lemma_one_at_hand(*over, start.n_inputs());
                            assert forall|dicts: Seq<Seq<Entry>>, pos: Seq<int>|
                                start.walks(dicts) && #[trigger] start.at(dicts, pos) implies {
                                &&& self.at(dicts, after_terms(dicts, pos, walked + 1))
                                &&& batch@ + over@ == first + first_terms(dicts, pos, walked + 1)
                                &&& goes_on(dicts, pos, walked + 1)
                            } by {
                                let p = after_terms(dicts, pos, walked);
                                assert(before.walks(dicts) && before.at(dicts, p));
                                assert(after_terms(dicts, pos, walked + 1) == moved_on(
                                    dicts,
                                    p,
                                    next_term(dicts, p),
                                    dicts.len() as int,
                                ));
                                assert(over@ =~= seq![nth_term(dicts, pos, walked)]);
                                assert(first_terms(dicts, pos, walked + 1) =~= first_terms(
                                    dicts,
                                    pos,
                                    walked,
                                ).push(nth_term(dicts, pos, walked)));
                                assert(batch@ + over@ =~= first + first_terms(dicts, pos, walked + 1));
                            }
                            assert(start.walks(dicts0) && start.at(dicts0, pos0));
                            walked = walked + 1;
                            lemma_entries_after(dicts0, pos0, walked);
                            lemma_entries_step(dicts0, pos0, (walked - 1) as nat);
                        }
                    },
                }
            }
            let ghost lifted = over@;
            if !batch.is_empty() && !batch.has_room(over, limits) {
                proof {
                    TermWalk::lemma_same_walks(self, &start, &start);
                    assert(self.walks(dicts0) && self.at(dicts0, after_terms(dicts0, pos0, walked)));
                    assert(walked == (batch@.len() + over@.len() - first.len()) as nat);
                }
                return Ok(true);
            }
            let ghost before = *batch;
            proof {
                lemma_one_input_list(*over);
            }
            batch.take_term(over);
            proof {
                assert(inputs_of(over@) =~= over.inputs());
                lemma_taken_at_hand(before, lifted, *batch, start.n_inputs());
                lemma_grown_within(before, lifted, *batch, *limits);
                assert(batch@ + over@ =~= before@ + lifted);
            }
            if batch.full(limits) {
                proof {
                    TermWalk::lemma_same_walks(self, &start, &start);
                    assert(self.walks(dicts0) && self.at(dicts0, after_terms(dicts0, pos0, walked)));
                    assert(walked == (batch@.len() + over@.len() - first.len()) as nat);
                }
                return Ok(true);
            }
        }
    }
}

/// Each of the first `m` terms of the merge from `pos` on is there to be walked.
pub open spec fn goes_on(dicts: Seq<Seq<Entry>>, pos: Seq<int>, m: nat) -> bool {
    forall|j: int| 0 <= j < m ==> !#[trigger] exhausted(dicts, after_terms(dicts, pos, j as nat))
}

/// `batch` is well-formed, holds no inputs but those of its terms, and those are of the first `n`.
pub open spec fn at_hand(batch: Batch, n: nat) -> bool {
    &&& batch.wf()
    &&& batch.inputs() == inputs_of(batch@)
    &&& forall|k: int| 0 <= k < batch@.len() ==> inputs_below((#[trigger] batch@[k]).1, n)
}

/// A term that was just walked is at hand.
proof fn lemma_one_at_hand(over: Batch, n: nat)
    requires
        over.wf(),
        over@.len() == 1,
        over.inputs() == over@.last().1,
        inputs_below(over@.last().1, n),
    ensures
        at_hand(over, n),
{
    assert(inputs_of(over@.drop_last()) =~= Seq::empty());
    assert(inputs_of(over@) =~= over@.last().1);
}

/// The inputs of one term are all there are.
proof fn lemma_one_input_list(over: Batch)
    requires
        over@.len() == 1,
        over.inputs() == inputs_of(over@),
    ensures
        over.inputs() == over@[0].1,
{
    assert(inputs_of(over@.drop_last()) =~= Seq::empty());
    assert(inputs_of(over@) =~= over@[0].1);
}

/// A batch that takes one more term over is at hand.
proof fn lemma_taken_at_hand(before: Batch, one: Seq<MergedTerm>, after: Batch, n: nat)
    requires
        at_hand(before, n),
        one.len() == 1,
        inputs_below(one[0].1, n),
        after.wf(),
        after@ == before@ + one,
        after.inputs() == before.inputs() + one[0].1,
    ensures
        at_hand(after, n),
{
    assert(after@.drop_last() =~= before@);
    assert(after@.last() == one[0]);
    assert forall|k: int| 0 <= k < after@.len() implies inputs_below((#[trigger] after@[k]).1, n) by {
        if k < before@.len() {
            assert(after@[k] == before@[k]);
        }
    }
}

/// One more term of the merge takes an entry off some dictionary.
proof fn lemma_entries_step(dicts: Seq<Seq<Entry>>, pos: Seq<int>, m: nat)
    requires
        within(dicts, pos),
        goes_on(dicts, pos, m + 1),
    ensures
        entries_left(dicts, after_terms(dicts, pos, m + 1), dicts.len() as int) < entries_left(
            dicts,
            after_terms(dicts, pos, m),
            dicts.len() as int,
        ),
{
    let before = after_terms(dicts, pos, m);
    assert(goes_on(dicts, pos, m));
    lemma_entries_after(dicts, pos, m);
    let j = m as int;
    assert(!exhausted(dicts, after_terms(dicts, pos, j as nat)));
    lemma_next_exists(dicts, before);
    lemma_entries_left(dicts, before, next_term(dicts, before), dicts.len() as int);
}

/// The inputs of `terms`, one after another.
pub open spec fn inputs_of(terms: Seq<MergedTerm>) -> Seq<(usize, FstValue)>
    decreases terms.len(),
{
    if terms.len() == 0 {
        Seq::empty()
    } else {
        inputs_of(terms.drop_last()) + terms.last().1
    }
}

/// Terms of one batch are no more than its most terms and posting bytes, unless there is only one.
pub open spec fn within_limits(terms: Seq<MergedTerm>, limits: BatchLimits) -> bool {
    terms.len() <= 1 || terms.len() <= limits.terms && total_hinted(inputs_of(terms))
        <= limits.posting_bytes
}

/// A batch that was not full, and had room, may take one more term.
proof fn lemma_grown_within(before: Batch, one: Seq<MergedTerm>, after: Batch, limits: BatchLimits)
    requires
        before.inputs() == inputs_of(before@),
        one.len() == 1,
        after@ == before@ + one,
        after.inputs() == inputs_of(after@),
        after.inputs() == before.inputs() + one[0].1,
        before@.len() > 0 ==> !before.is_full(limits),
        before@.len() > 0 ==> total_hinted(before.inputs()) + total_hinted(one[0].1)
            <= limits.posting_bytes,
    ensures
        within_limits(after@, limits),
{
    lemma_hinted_both(before.inputs(), one[0].1);
}

/// Where an input has entries left there is a first term, and an input stands at it.
pub proof fn lemma_next_exists(dicts: Seq<Seq<Entry>>, pos: Seq<int>)
    requires
        !exhausted(dicts, pos),
    ensures
        is_next(dicts, pos, next_term(dicts, pos)),
        exists|i: int| i < dicts.len() && #[trigger] stands_at(dicts, pos, next_term(dicts, pos), i),
{
    let first = choose|i: int| #[trigger] has_head(dicts, pos, i);
    assert(first < dicts.len() && has_head(dicts, pos, first));
    let least = lemma_least_exists(dicts, pos, dicts.len() as int);
    assert(is_next(dicts, pos, head_term(dicts, pos, least)));
    let term = next_term(dicts, pos);
    let i = choose|i: int| #[trigger] has_head(dicts, pos, i) && head_term(dicts, pos, i) == term;
    assert(stands_at(dicts, pos, term, i));
}

/// Among the first `n` inputs, where one stands at a term, there is one that none stands before.
proof fn lemma_least_exists(dicts: Seq<Seq<Entry>>, pos: Seq<int>, n: int) -> (least: int)
    requires
        0 <= n <= dicts.len(),
        exists|i: int| i < n && #[trigger] has_head(dicts, pos, i),
    ensures
        0 <= least < n,
        has_head(dicts, pos, least),
        forall|j: int|
            j < n && #[trigger] has_head(dicts, pos, j) ==> !term_lt(
                head_term(dicts, pos, j),
                head_term(dicts, pos, least),
            ),
    decreases n,
{
    let last = n - 1;
    if exists|i: int| i < last && #[trigger] has_head(dicts, pos, i) {
        let least = lemma_least_exists(dicts, pos, last);
        if has_head(dicts, pos, last) && term_lt(head_term(dicts, pos, last), head_term(dicts, pos, least)) {
            assert forall|j: int| j < n && #[trigger] has_head(dicts, pos, j) implies !term_lt(
                head_term(dicts, pos, j),
                head_term(dicts, pos, last),
            ) by {
                term_lt_asymmetric(head_term(dicts, pos, last), head_term(dicts, pos, last));
                if term_lt(head_term(dicts, pos, j), head_term(dicts, pos, last)) {
                    term_lt_transitive(
                        head_term(dicts, pos, j),
                        head_term(dicts, pos, last),
                        head_term(dicts, pos, least),
                    );
                }
            }
            last
        } else {
            least
        }
    } else {
        let i = choose|i: int| i < n && #[trigger] has_head(dicts, pos, i);
        assert(i == last);
        term_lt_asymmetric(head_term(dicts, pos, last), head_term(dicts, pos, last));
        last
    }
}

/// A heap has one first head.
proof fn lemma_one_first(heap: TermHeap)
    ensures
        forall|a: Head, b: Head| #[trigger] heap.is_first(a) && #[trigger] heap.is_first(b) ==> a == b,
{
    assert forall|a: Head, b: Head| #[trigger] heap.is_first(a) && #[trigger] heap.is_first(b) implies a
        == b by {
        head_le_antisymmetric(a, b);
    }
}

/// Every input named in `inputs` is one of the first `n`.
pub open spec fn inputs_below(inputs: Seq<(usize, FstValue)>, n: nat) -> bool {
    forall|k: int| 0 <= k < inputs.len() ==> (#[trigger] inputs[k]).0 < n
}

/// The dictionaries that are walked are in term order.
proof fn lemma_walks_ascending<R: FtsReader>(walk: TermWalk<'_, R>, dicts: Seq<Seq<Entry>>)
    requires
        walk.walks(dicts),
    ensures
        forall|i: int| 0 <= i < dicts.len() ==> ascending_terms(#[trigger] dicts[i]),
{
}

/// Once the inputs before `b` have moved on from the first term, no input stands before it, and
/// those that stand at it are the ones from `b` on that did.
proof fn lemma_ahead(dicts: Seq<Seq<Entry>>, pos: Seq<int>, term: Seq<u8>, b: int)
    requires
        is_next(dicts, pos, term),
        pos.len() == dicts.len(),
        forall|i: int| 0 <= i < dicts.len() ==> ascending_terms(#[trigger] dicts[i]),
    ensures
        forall|j: int| #[trigger]
            has_head(dicts, moved_on(dicts, pos, term, b), j) ==> {
                let t = head_term(dicts, moved_on(dicts, pos, term, b), j);
                &&& !term_lt(t, term)
                &&& t == term ==> j >= b && stands_at(dicts, pos, term, j)
            },
{
    let p = moved_on(dicts, pos, term, b);
    assert forall|j: int| #[trigger] has_head(dicts, p, j) implies {
        let t = head_term(dicts, p, j);
        &&& !term_lt(t, term)
        &&& t == term ==> j >= b && stands_at(dicts, pos, term, j)
    } by {
        let t = head_term(dicts, p, j);
        if j < b && stands_at(dicts, pos, term, j) {
            assert(ascending_terms(dicts[j]));
            assert(term_lt(dicts[j][pos[j]].0, dicts[j][pos[j] + 1].0));
            term_lt_asymmetric(term, t);
        } else {
            assert(has_head(dicts, pos, j));
        }
    }
}

/// Inputs that do not stand at a term neither hold it nor move on from it.
proof fn lemma_none_between(dicts: Seq<Seq<Entry>>, pos: Seq<int>, term: Seq<u8>, a: int, b: int)
    requires
        0 <= a <= b,
        forall|j: int| a <= j < b ==> !#[trigger] stands_at(dicts, pos, term, j),
    ensures
        holders(dicts, pos, term, b) == holders(dicts, pos, term, a),
        moved_on(dicts, pos, term, b) == moved_on(dicts, pos, term, a),
    decreases b - a,
{
    if a < b {
        lemma_none_between(dicts, pos, term, a, b - 1);
        assert(!stands_at(dicts, pos, term, b - 1));
    }
    assert(moved_on(dicts, pos, term, b) =~= moved_on(dicts, pos, term, a));
}

/// `dict` is a column's dictionary, whatever bytes it is handed over as.
pub open spec fn dictionary_of<R: FtsReader>(fts: &R, column_id: u32, dict: Seq<Entry>) -> bool {
    forall|bytes: bytes::Bytes| #[trigger]
        call_ensures(R::dict_bytes, (fts,), Ok::<bytes::Bytes, FtsError>(bytes))
            ==> crate::dictionary::is_dictionary(fts, &bytes, column_id, dict)
}

/// `dicts` are the dictionaries of a column in each of `readers`.
pub open spec fn are_dictionaries<R: FtsReader>(
    readers: Seq<&R>,
    column_id: u32,
    dicts: Seq<Seq<Entry>>,
) -> bool {
    &&& dicts.len() == readers.len()
    &&& forall|i: int|
        0 <= i < dicts.len() ==> ascending_terms(dicts[i]) && #[trigger] dictionary_of(
            readers[i],
            column_id,
            dicts[i],
        )
}

/// A walk that has read nothing stands at the start of any dictionary.
proof fn lemma_start_at<R: FtsReader>(walk: TermChunks<'_, R>, dict: Seq<Entry>)
    requires
        walk.at_start(),
    ensures
        walk.at(dict, 0),
{
    assert(walk.pending() =~= dict.subrange(0, 0));
}

/// Every term of the merge takes an entry off some dictionary.
pub proof fn lemma_entries_after(dicts: Seq<Seq<Entry>>, pos: Seq<int>, m: nat)
    requires
        within(dicts, pos),
        forall|j: int| 0 <= j < m ==> !#[trigger] exhausted(dicts, after_terms(dicts, pos, j as nat)),
    ensures
        within(dicts, after_terms(dicts, pos, m)),
        0 <= entries_left(dicts, after_terms(dicts, pos, m), dicts.len() as int),
        entries_left(dicts, after_terms(dicts, pos, m), dicts.len() as int) + m <= entries_left(
            dicts,
            pos,
            dicts.len() as int,
        ),
    decreases m,
{
    let n = dicts.len() as int;
    if m == 0 {
        lemma_entries_left(dicts, pos, Seq::empty(), n);
    } else {
        let before = after_terms(dicts, pos, (m - 1) as nat);
        let term = next_term(dicts, before);
        lemma_entries_after(dicts, pos, (m - 1) as nat);
        assert(!exhausted(dicts, before));
        lemma_next_exists(dicts, before);
        lemma_moved_on_within(dicts, before, term, n);
        lemma_entries_left(dicts, before, term, n);
        lemma_entries_left(dicts, after_terms(dicts, pos, m), term, n);
    }
}

} // verus!
