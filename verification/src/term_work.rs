//! Merging the postings of one term.
use crate::counts::{no_tally, tally_of, Tally, TermCounts};
use crate::dictionary::{FstValue, Posting};
use crate::parallel::sort_by_doc;
use vstd::prelude::*;

verus! {

/// A document's id in the output.
#[derive(Clone, Copy, Debug, PartialEq, Eq)]
pub struct FtsDocId {
    pub id: u32,
}

impl FtsDocId {
    /// The output document `id`.
    pub fn new(id: u32) -> (doc: Self)
        ensures
            doc.id == id,
    {
        FtsDocId { id }
    }

    /// The id as a number.
    pub fn get(self) -> (id: u32)
        ensures
            id == self.id,
    {
        self.id
    }
}

/// A posting that stays: its output document, its term frequency and its positions.
pub type Kept = (u32, u32, Seq<u32>);

/// Positions stand in order, none twice.
pub open spec fn increasing(positions: Seq<u32>) -> bool {
    forall|i: int, j: int| 0 <= i < j < positions.len() ==> #[trigger] positions[i] < #[trigger] positions[j]
}

/// Positions as run values: the first position, then the gap to each next one.
pub open spec fn run_values(positions: Seq<u32>) -> Seq<u32> {
    Seq::new(
        positions.len(),
        |k: int|
            if k == 0 {
                positions[0]
            } else {
                (positions[k] - positions[k - 1]) as u32
            },
    )
}

/// The first `n` of `values`, added up.
pub open spec fn sum_of(values: Seq<u32>, n: int) -> int
    decreases n,
{
    if n <= 0 {
        0
    } else {
        sum_of(values, n - 1) + values[n - 1]
    }
}

/// Adding up a run's values gives back each position.
pub proof fn run_values_add_up(positions: Seq<u32>, k: int)
    requires
        increasing(positions),
        0 <= k < positions.len(),
    ensures
        sum_of(run_values(positions), k + 1) == positions[k],
    decreases k,
{
    if k > 0 {
        run_values_add_up(positions, k - 1);
        assert(positions[k - 1] < positions[k]);
    } else {
        assert(sum_of(run_values(positions), 0) == 0);
    }
}

/// The postings whose documents the output keeps, under their output documents.
pub open spec fn survivors(postings: Seq<Posting>, remap: Seq<Option<FtsDocId>>) -> Seq<Kept>
    decreases postings.len(),
{
    if postings.len() == 0 {
        Seq::empty()
    } else {
        let posting = postings.last();
        let fewer = survivors(postings.drop_last(), remap);
        match remap[posting.doc as int] {
            Some(out) => fewer.push((out.id, posting.tf, posting.positions@)),
            None => fewer,
        }
    }
}

/// Every posting's document is one that `remap` has an entry for, and the positions of those that
/// stay are in order.
pub open spec fn placeable(postings: Seq<Posting>, remap: Seq<Option<FtsDocId>>) -> bool {
    forall|k: int|
        0 <= k < postings.len() ==> (#[trigger] postings[k]).doc < remap.len() && (
        remap[postings[k].doc as int] is Some ==> increasing(postings[k].positions@))
}

/// What stays of the first `n` lists of a term's postings, joined in input order.
pub open spec fn joined(
    inputs: Seq<(usize, FstValue)>,
    lists: Seq<Vec<Posting>>,
    remaps: Seq<Seq<Option<FtsDocId>>>,
    n: int,
) -> Seq<Kept>
    decreases n,
{
    if n <= 0 {
        Seq::empty()
    } else {
        joined(inputs, lists, remaps, n - 1) + survivors(
            lists[n - 1]@,
            remaps[inputs[n - 1].0 as int],
        )
    }
}

/// The documents come by strictly ascending id.
pub open spec fn docs_ascend(kept: Seq<Kept>) -> bool {
    forall|i: int, j: int| 0 <= i < j < kept.len() ==> (#[trigger] kept[i]).0 < (#[trigger] kept[j]).0
}

/// Every posting's run values back to back.
pub open spec fn all_runs(kept: Seq<Kept>) -> Seq<u32>
    decreases kept.len(),
{
    if kept.len() == 0 {
        Seq::empty()
    } else {
        all_runs(kept.drop_last()) + run_values(kept.last().2)
    }
}

/// Where the run of posting `k` starts.
pub open spec fn run_start(kept: Seq<Kept>, k: int) -> int {
    all_runs(kept.take(k)).len() as int
}

/// `pairs` and `starts` are the postings of `kept` in the order that `perm` gives them, each with
/// where its run starts.
pub open spec fn arranged_by(
    kept: Seq<Kept>,
    perm: Seq<int>,
    pairs: Seq<(u32, u32)>,
    starts: Seq<usize>,
) -> bool {
    &&& perm.len() == kept.len()
    &&& pairs.len() == kept.len()
    &&& starts.len() == kept.len()
    &&& perm.no_duplicates()
    &&& forall|k: int| 0 <= k < perm.len() ==> 0 <= #[trigger] perm[k] < kept.len()
    &&& forall|k: int|
        0 <= k < perm.len() ==> #[trigger] pairs[k] == (kept[perm[k]].0, kept[perm[k]].1)
    &&& forall|k: int| 0 <= k < perm.len() ==> #[trigger] starts[k] == run_start(kept, perm[k])
}

/// Posting `a` of `kept` goes before posting `b`: its document is the lower, or the same and it
/// arrived first.
pub open spec fn goes_before(kept: Seq<Kept>, a: int, b: int) -> bool {
    kept[a].0 < kept[b].0 || kept[a].0 == kept[b].0 && a < b
}

/// `perm` takes the postings of `kept` by ascending document, and those of one document as they
/// arrived.
pub open spec fn by_document(kept: Seq<Kept>, perm: Seq<int>) -> bool {
    forall|j: int, k: int|
        0 <= j < k < perm.len() ==> goes_before(kept, #[trigger] perm[j], #[trigger] perm[k])
}

/// `pairs` and `starts` are the postings of `kept` by ascending document, those of one document in
/// the order they arrived, each with where its run starts.
pub open spec fn is_arrangement(kept: Seq<Kept>, pairs: Seq<(u32, u32)>, starts: Seq<usize>) -> bool {
    exists|perm: Seq<int>| #[trigger] arranged_by(kept, perm, pairs, starts) && by_document(kept, perm)
}

/// The document and the place of posting `a` come before those of posting `b`, or are the same.
pub open spec fn places_in_order(postings: Seq<(u32, u32)>, a: usize, b: usize) -> bool {
    postings[a as int].0 < postings[b as int].0 || postings[a as int].0 == postings[b as int].0 && a <= b
}

/// The document of posting `k` and its place.
pub fn doc_and_place(postings: &Vec<(u32, u32)>, k: usize) -> (r: (u32, usize))
    requires
        k < postings@.len(),
    ensures
        r == (postings@[k as int].0, k),
{
    (postings[k].0, k)
}

/// Append one document's positions to `out` as run values: the first position, then the gap to
/// each next one. The same values a LEB128 run holds, without the encoding.
pub fn push_run_values(out: &mut Vec<u32>, positions: &[u32])
    requires
        increasing(positions@),
    ensures
        final(out)@ == old(out)@ + run_values(positions@),
{
    let mut prev: u32 = 0;
    for i in 0..positions.len()
        invariant
            increasing(positions@),
            i == 0 ==> prev == 0,
            i > 0 ==> prev == positions@[i - 1],
            out@ == old(out)@ + run_values(positions@).take(i as int),
    {
        let p: u32 = positions[i];
        assert(i > 0 ==> positions@[i - 1] < positions@[i as int]);
        out.push(p - prev);
        prev = p;
        assert(run_values(positions@).take(i + 1) =~= run_values(positions@).take(i as int).push(
            run_values(positions@)[i as int],
        ));
    }
    assert(run_values(positions@).take(positions@.len() as int) =~= run_values(positions@));
}

/// One worker's buffers for merging a term.
pub struct TermWork {
    postings: Vec<(u32, u32)>,
    /// Every posting's run values back to back, and where each run starts. A sort reorders the
    /// starts and leaves the values where they are.
    runs: Vec<u32>,
    run_starts: Vec<usize>,
    /// The postings so far arrived by ascending document.
    ascending: bool,
    sorted_postings: Vec<(u32, u32)>,
    sorted_starts: Vec<usize>,
    /// What was counted of the terms merged so far.
    counts: TermCounts,
}

impl TermWork {
    /// The terms merged so far were counted as `t`.
    pub closed spec fn counted(&self, t: Tally) -> bool {
        self.counts.count(t)
    }

    /// The buffers hold the postings `kept`, in the order they arrived.
    pub closed spec fn holds(&self, kept: Seq<Kept>) -> bool {
        &&& self.postings@.len() == kept.len()
        &&& self.run_starts@.len() == kept.len()
        &&& self.runs@ == all_runs(kept)
        &&& self.ascending == docs_ascend(kept)
        &&& forall|k: int| 0 <= k < kept.len() ==> #[trigger] self.postings@[k] == (kept[k].0, kept[k].1)
        &&& forall|k: int| 0 <= k < kept.len() ==> #[trigger] self.run_starts@[k] == run_start(kept, k)
    }

    /// Buffers with nothing in them.
    pub fn new() -> (work: Self)
        ensures
            work.holds(Seq::empty()),
            work.counted(no_tally()),
    {
        let work = TermWork {
            postings: Vec::new(),
            runs: Vec::new(),
            run_starts: Vec::new(),
            ascending: true,
            sorted_postings: Vec::new(),
            sorted_starts: Vec::new(),
            counts: TermCounts::new(),
        };
        assert(work.runs@ =~= all_runs(Seq::<Kept>::empty()));
        work
    }

    /// Empty the buffers for the next term.
    pub fn clear(&mut self)
        ensures
            final(self).holds(Seq::empty()),
            forall|t: Tally| #[trigger] old(self).counted(t) ==> final(self).counted(t),
    {
        self.postings.clear();
        self.runs.clear();
        self.run_starts.clear();
        self.ascending = true;
        assert(self.runs@ =~= all_runs(Seq::<Kept>::empty()));
    }

    /// Whether no posting is held.
    pub fn is_empty(&self) -> (r: bool)
        ensures
            forall|kept: Seq<Kept>| #[trigger] self.holds(kept) ==> r == (kept.len() == 0),
    {
        self.postings.len() == 0
    }

    /// Take up one posting that stays.
    fn keep(&mut self, doc: u32, tf: u32, positions: &[u32])
        requires
            increasing(positions@),
        ensures
            forall|kept: Seq<Kept>| #[trigger]
                old(self).holds(kept) ==> final(self).holds(kept.push((doc, tf, positions@))),
            forall|t: Tally| #[trigger] old(self).counted(t) ==> final(self).counted(t),
    {
        let n: usize = self.postings.len();
        let in_order: bool = n == 0 || self.postings[n - 1].0 < doc;
        self.ascending = self.ascending && in_order;
        self.postings.push((doc, tf));
        self.run_starts.push(self.runs.len());
        push_run_values(&mut self.runs, positions);
        proof {
            assert forall|kept: Seq<Kept>| #[trigger] old(self).holds(kept) implies self.holds(
                kept.push((doc, tf, positions@)),
            ) by {
                let more = kept.push((doc, tf, positions@));
                assert(more.drop_last() =~= kept);
                assert forall|k: int| 0 <= k < more.len() implies #[trigger] self.run_starts@[k] == run_start(
                    more,
                    k,
                ) by {
                    if k < kept.len() {
                        assert(old(self).run_starts@[k] == run_start(kept, k));
                        assert(more.take(k) =~= kept.take(k));
                    } else {
                        assert(more.take(k) =~= kept);
                    }
                }
                assert forall|k: int| 0 <= k < more.len() implies #[trigger] self.postings@[k] == (
                    more[k].0,
                    more[k].1,
                ) by {
                    if k < kept.len() {
                        assert(old(self).postings@[k] == (kept[k].0, kept[k].1));
                    }
                }
                if kept.len() > 0 {
                    assert(old(self).postings@[n - 1] == (kept[n - 1].0, kept[n - 1].1));
                }
                lemma_still_ascends(kept, (doc, tf, positions@));
            }
        }
    }

    /// Take up what stays of an input's postings, under its output documents.
    pub fn gather(&mut self, postings: &Vec<Posting>, remap: &Vec<Option<FtsDocId>>)
        requires
            placeable(postings@, remap@),
        ensures
            forall|kept: Seq<Kept>| #[trigger]
                old(self).holds(kept) ==> final(self).holds(kept + survivors(postings@, remap@)),
            forall|t: Tally| #[trigger] old(self).counted(t) ==> final(self).counted(t),
    {
        assert forall|kept: Seq<Kept>| #[trigger] self.holds(kept) implies self.holds(
            kept + survivors(postings@.take(0), remap@),
        ) by {
            assert(kept + survivors(postings@.take(0), remap@) =~= kept);
        }
        for k in 0..postings.len()
            invariant
                placeable(postings@, remap@),
                forall|kept: Seq<Kept>| #[trigger]
                    old(self).holds(kept) ==> self.holds(kept + survivors(postings@.take(k as int), remap@)),
                forall|t: Tally| #[trigger] old(self).counted(t) ==> self.counted(t),
        {
            let posting = &postings[k];
            let ghost before = *self;
            let ghost so_far = survivors(postings@.take(k as int), remap@);
            proof {
                assert(postings@[k as int].doc < remap@.len());
                assert(postings@.take(k + 1).drop_last() =~= postings@.take(k as int));
            }
            let placed = remap[posting.doc as usize];
            if let Some(out) = placed {
                self.keep(out.get(), posting.tf, &posting.positions);
                proof {
                    let one = (out.id, posting.tf, posting.positions@);
                    assert forall|kept: Seq<Kept>| #[trigger] old(self).holds(kept) implies self.holds(
                        kept + survivors(postings@.take(k + 1), remap@),
                    ) by {
                        assert(before.holds(kept + so_far));
                        assert((kept + so_far).push(one) =~= kept + so_far.push(one));
                    }
                }
            }
        }
        assert(postings@.take(postings@.len() as int) =~= postings@);
    }

    /// What was counted of the terms merged so far.
    pub fn counts(&self) -> (counts: TermCounts)
        ensures
            forall|t: Tally| #[trigger] self.counted(t) ==> counts.count(t),
    {
        self.counts
    }

    /// The postings by ascending document, each with where its run starts. They are sorted if they
    /// arrived out of order, each posting taking its run start with it. The term is counted.
    pub fn arrange(&mut self) -> (r: (&Vec<(u32, u32)>, &Vec<usize>, &Vec<u32>))
        requires
            exists|kept: Seq<Kept>| old(self).holds(kept),
        ensures
            forall|kept: Seq<Kept>| #[trigger]
                old(self).holds(kept) ==> is_arrangement(kept, r.0@, r.1@) && r.2@ == all_runs(kept)
                    && final(self).holds(kept),
            forall|kept: Seq<Kept>, t: Tally| #[trigger]
                old(self).holds(kept) && #[trigger] old(self).counted(t) ==> final(self).counted(
                    t.plus(tally_of(kept)),
                ),
    {
        self.counts.add_term(self.postings.len(), self.runs.len(), !self.ascending);
        if self.ascending {
            proof {
                assert forall|kept: Seq<Kept>| #[trigger] old(self).holds(kept) implies is_arrangement(
                    kept,
                    self.postings@,
                    self.run_starts@,
                ) by {
                    lemma_already_arranged(kept, self.postings@, self.run_starts@);
                }
            }
            return (&self.postings, &self.run_starts, &self.runs);
        }
        let ghost counted = self.counts;
        let n: usize = self.postings.len();
        assert(n == self.run_starts@.len());
        let mut order: Vec<usize> = Vec::new();
        for k in 0..n
            invariant
                order@ == Seq::new(k as nat, |i: int| i as usize),
        {
            order.push(k);
            assert(order@ =~= Seq::new((k + 1) as nat, |i: int| i as usize));
        }
        let ghost identity = order@;
        sort_by_doc(&mut order, &self.postings);
        proof {
            lemma_rearranged_indices(identity, order@);
        }
        self.sorted_postings.clear();
        self.sorted_starts.clear();
        for j in 0..n
            invariant
                n == order@.len(),
                n == self.postings@.len(),
                n == self.run_starts@.len(),
                self.postings@ == old(self).postings@,
                self.run_starts@ == old(self).run_starts@,
                self.runs@ == old(self).runs@,
                self.ascending == old(self).ascending,
                self.counts == counted,
                forall|k: int| 0 <= k < n ==> #[trigger] order@[k] < n,
                self.sorted_postings@.len() == j,
                self.sorted_starts@.len() == j,
                forall|k: int|
                    0 <= k < j ==> #[trigger] self.sorted_postings@[k] == self.postings@[order@[k] as int],
                forall|k: int|
                    0 <= k < j ==> #[trigger] self.sorted_starts@[k] == self.run_starts@[order@[k] as int],
        {
            let k: usize = order[j];
            self.sorted_postings.push(self.postings[k]);
            self.sorted_starts.push(self.run_starts[k]);
        }
        proof {
            assert forall|kept: Seq<Kept>| #[trigger] old(self).holds(kept) implies is_arrangement(
                kept,
                self.sorted_postings@,
                self.sorted_starts@,
            ) by {
                lemma_sorted_arranged(
                    kept,
                    order@,
                    old(self).postings@,
                    old(self).run_starts@,
                    self.sorted_postings@,
                    self.sorted_starts@,
                );
            }
        }
        (&self.sorted_postings, &self.sorted_starts, &self.runs)
    }
}

/// A posting that comes after the last keeps ascending postings so, and none other does.
proof fn lemma_still_ascends(kept: Seq<Kept>, one: Kept)
    ensures
        docs_ascend(kept.push(one)) == (docs_ascend(kept) && (kept.len() == 0 || kept.last().0 < one.0)),
{
    let more = kept.push(one);
    if docs_ascend(more) {
        assert forall|i: int, j: int| 0 <= i < j < kept.len() implies (#[trigger] kept[i]).0 < (
        #[trigger] kept[j]).0 by {
            assert(more[i].0 < more[j].0);
        }
        if kept.len() > 0 {
            assert(more[kept.len() - 1].0 < more[kept.len() as int].0);
        }
    }
    if docs_ascend(kept) && (kept.len() == 0 || kept.last().0 < one.0) {
        assert forall|i: int, j: int| 0 <= i < j < more.len() implies (#[trigger] more[i]).0 < (
        #[trigger] more[j]).0 by {
            if j < kept.len() {
                assert(kept[i].0 < kept[j].0);
            } else if i < kept.len() - 1 {
                assert(kept[i].0 < kept[kept.len() - 1].0);
            }
        }
    }
}

/// Postings that ascend are arranged as they stand.
proof fn lemma_already_arranged(kept: Seq<Kept>, pairs: Seq<(u32, u32)>, starts: Seq<usize>)
    requires
        docs_ascend(kept),
        pairs.len() == kept.len(),
        starts.len() == kept.len(),
        forall|k: int| 0 <= k < kept.len() ==> #[trigger] pairs[k] == (kept[k].0, kept[k].1),
        forall|k: int| 0 <= k < kept.len() ==> #[trigger] starts[k] == run_start(kept, k),
    ensures
        is_arrangement(kept, pairs, starts),
{
    let perm = Seq::new(kept.len(), |k: int| k);
    assert(arranged_by(kept, perm, pairs, starts));
    assert(by_document(kept, perm)) by {
        assert forall|j: int, k: int| 0 <= j < k < perm.len() implies goes_before(
            kept,
            #[trigger] perm[j],
            #[trigger] perm[k],
        ) by {
            assert(kept[j].0 < kept[k].0);
        }
    }
}

/// A rearrangement of the indices names each once.
proof fn lemma_rearranged_indices(identity: Seq<usize>, order: Seq<usize>)
    requires
        identity == Seq::new(identity.len(), |i: int| i as usize),
        identity.len() <= usize::MAX,
        identity.to_multiset() == order.to_multiset(),
    ensures
        order.len() == identity.len(),
        order.no_duplicates(),
        forall|k: int| 0 <= k < order.len() ==> #[trigger] order[k] < identity.len(),
{
    vstd::seq_lib::to_multiset_len(identity);
    vstd::seq_lib::to_multiset_len(order);
    assert(identity.no_duplicates());
    identity.lemma_multiset_has_no_duplicates();
    order.lemma_multiset_has_no_duplicates_conv();
    assert forall|k: int| 0 <= k < order.len() implies #[trigger] order[k] < identity.len() by {
        assert(order.contains(order[k]));
        vstd::seq_lib::to_multiset_contains(order, order[k]);
        vstd::seq_lib::to_multiset_contains(identity, order[k]);
        let i = choose|i: int| 0 <= i < identity.len() && identity[i] == order[k];
        assert(identity[i] == i as usize);
    }
}

/// Postings taken in the order of sorted indices are arranged.
proof fn lemma_sorted_arranged(
    kept: Seq<Kept>,
    order: Seq<usize>,
    postings: Seq<(u32, u32)>,
    starts: Seq<usize>,
    pairs: Seq<(u32, u32)>,
    sorted_starts: Seq<usize>,
)
    requires
        postings.len() == kept.len(),
        starts.len() == kept.len(),
        order.len() == kept.len(),
        pairs.len() == kept.len(),
        sorted_starts.len() == kept.len(),
        order.no_duplicates(),
        forall|k: int| 0 <= k < kept.len() ==> #[trigger] order[k] < kept.len(),
        forall|k: int| 0 <= k < kept.len() ==> #[trigger] postings[k] == (kept[k].0, kept[k].1),
        forall|k: int| 0 <= k < kept.len() ==> #[trigger] starts[k] == run_start(kept, k),
        forall|k: int| 0 <= k < kept.len() ==> #[trigger] pairs[k] == postings[order[k] as int],
        forall|k: int| 0 <= k < kept.len() ==> #[trigger] sorted_starts[k] == starts[order[k] as int],
        forall|j: int, k: int|
            0 <= j < k < order.len() ==> places_in_order(postings, #[trigger] order[j], #[trigger] order[k]),
    ensures
        is_arrangement(kept, pairs, sorted_starts),
{
    let perm = Seq::new(order.len(), |k: int| order[k] as int);
    assert forall|k: int| 0 <= k < perm.len() implies 0 <= #[trigger] perm[k] < kept.len() by {
        assert(order[k] < kept.len());
    }
    assert forall|j: int, k: int| 0 <= j < perm.len() && 0 <= k < perm.len() && j != k implies perm[j]
        != perm[k] by {
        assert(order[j] != order[k]);
    }
    assert forall|k: int| 0 <= k < perm.len() implies #[trigger] pairs[k] == (
        kept[perm[k]].0,
        kept[perm[k]].1,
    ) by {
        assert(order[k] < kept.len());
    }
    assert forall|k: int| 0 <= k < perm.len() implies #[trigger] sorted_starts[k] == run_start(kept, perm[k]) by {
        assert(order[k] < kept.len());
    }
    assert(arranged_by(kept, perm, pairs, sorted_starts));
    assert(by_document(kept, perm)) by {
        assert forall|j: int, k: int| 0 <= j < k < perm.len() implies goes_before(
            kept,
            #[trigger] perm[j],
            #[trigger] perm[k],
        ) by {
            assert(places_in_order(postings, order[j], order[k]));
            assert(order[j] != order[k]);
        }
    }
}

} // verus!
