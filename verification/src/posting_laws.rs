//! What holds of a term's merged postings.
use crate::dictionary::{FstValue, Posting};
use crate::term_work::{
    all_runs, arranged_by, by_document, docs_ascend, goes_before, is_arrangement, joined, run_start,
    run_values, survivors, FtsDocId, Kept,
};
use vstd::prelude::*;

verus! {

/// No two postings have one document.
pub open spec fn docs_distinct(kept: Seq<Kept>) -> bool {
    forall|i: int, j: int|
        0 <= i < kept.len() && 0 <= j < kept.len() && i != j ==> (#[trigger] kept[i]).0 != (#[trigger] kept[j]).0
}

/// The documents of `postings` come by strictly ascending id.
pub open spec fn posting_docs_ascend(postings: Seq<Posting>) -> bool {
    forall|i: int, j: int| 0 <= i < j < postings.len() ==> (#[trigger] postings[i]).doc < (#[trigger] postings[j]).doc
}

/// An input's rows keep their order in the output.
pub open spec fn keeps_order(remap: Seq<Option<FtsDocId>>) -> bool {
    forall|a: int, b: int|
        0 <= a < b < remap.len() && #[trigger] remap[a] is Some && #[trigger] remap[b] is Some ==> remap[a]->0.id
            < remap[b]->0.id
}

/// Every row of the one input lands before every row of the other.
pub open spec fn lands_before(a: Seq<Option<FtsDocId>>, b: Seq<Option<FtsDocId>>) -> bool {
    forall|i: int, j: int|
        0 <= i < a.len() && 0 <= j < b.len() && #[trigger] a[i] is Some && #[trigger] b[j] is Some ==> a[i]->0.id
            < b[j]->0.id
}

/// The remaps keep arrival order: each input's rows keep their order, and land before those of
/// later inputs.
pub open spec fn keep_arrival_order(remaps: Seq<Seq<Option<FtsDocId>>>) -> bool {
    &&& forall|i: int| 0 <= i < remaps.len() ==> keeps_order(#[trigger] remaps[i])
    &&& forall|i: int, j: int| 0 <= i < j < remaps.len() ==> lands_before(#[trigger] remaps[i], #[trigger] remaps[j])
}

/// The inputs of a term are ones that there are, in input order, none twice.
pub open spec fn inputs_ascend(inputs: Seq<(usize, FstValue)>, n: nat) -> bool {
    &&& forall|k: int| 0 <= k < inputs.len() ==> (#[trigger] inputs[k]).0 < n
    &&& forall|j: int, k: int| 0 <= j < k < inputs.len() ==> (#[trigger] inputs[j]).0 < (#[trigger] inputs[k]).0
}

/// Every posting that stays comes from a row of the input that the remap keeps.
proof fn lemma_survivors_from(postings: Seq<Posting>, remap: Seq<Option<FtsDocId>>, k: int) -> (j: int)
    requires
        0 <= k < survivors(postings, remap).len(),
    ensures
        0 <= j < postings.len(),
        remap[postings[j].doc as int] == Some(FtsDocId { id: survivors(postings, remap)[k].0 }),
    decreases postings.len(),
{
    let fewer = survivors(postings.drop_last(), remap);
    if k < fewer.len() {
        let j = lemma_survivors_from(postings.drop_last(), remap, k);
        assert(postings.drop_last()[j] == postings[j]);
        j
    } else {
        postings.len() - 1
    }
}

/// What stays of postings that ascend, under a remap that keeps order, ascends.
proof fn lemma_survivors_ascend(postings: Seq<Posting>, remap: Seq<Option<FtsDocId>>)
    requires
        posting_docs_ascend(postings),
        keeps_order(remap),
        forall|k: int| 0 <= k < postings.len() ==> (#[trigger] postings[k]).doc < remap.len(),
    ensures
        docs_ascend(survivors(postings, remap)),
    decreases postings.len(),
{
    if postings.len() > 0 {
        let fewer = postings.drop_last();
        assert forall|i: int, j: int| 0 <= i < j < fewer.len() implies (#[trigger] fewer[i]).doc < (
        #[trigger] fewer[j]).doc by {
            assert(postings[i].doc < postings[j].doc);
        }
        lemma_survivors_ascend(fewer, remap);
        let before = survivors(fewer, remap);
        let all = survivors(postings, remap);
        assert forall|i: int, j: int| 0 <= i < j < all.len() implies (#[trigger] all[i]).0 < (
        #[trigger] all[j]).0 by {
            if j < before.len() {
                assert(before[i].0 < before[j].0);
            } else {
                let from = lemma_survivors_from(fewer, remap, i);
                assert(postings[from].doc < postings[postings.len() - 1].doc);
                assert(remap[postings[from].doc as int] is Some);
            }
        }
    }
}

/// Every posting joined from the first `n` lists comes from a row that some remap of theirs keeps.
proof fn lemma_joined_from(
    inputs: Seq<(usize, FstValue)>,
    lists: Seq<Vec<Posting>>,
    remaps: Seq<Seq<Option<FtsDocId>>>,
    n: int,
    k: int,
) -> (r: (int, int))
    requires
        0 <= n <= lists.len(),
        0 <= k < joined(inputs, lists, remaps, n).len(),
    ensures
        0 <= r.0 < n,
        0 <= r.1 < lists[r.0]@.len(),
        remaps[inputs[r.0].0 as int][lists[r.0]@[r.1].doc as int] == Some(
            FtsDocId { id: joined(inputs, lists, remaps, n)[k].0 },
        ),
    decreases n,
{
    let before = joined(inputs, lists, remaps, n - 1);
    if k < before.len() {
        lemma_joined_from(inputs, lists, remaps, n - 1, k)
    } else {
        let j = lemma_survivors_from(lists[n - 1]@, remaps[inputs[n - 1].0 as int], k - before.len());
        (n - 1, j)
    }
}

/// When the remaps keep arrival order, a term's postings joined in input order are already sorted
/// by output document.
pub proof fn arrival_order_needs_no_sort(
    inputs: Seq<(usize, FstValue)>,
    lists: Seq<Vec<Posting>>,
    remaps: Seq<Seq<Option<FtsDocId>>>,
    n: int,
)
    requires
        0 <= n <= lists.len(),
        lists.len() == inputs.len(),
        inputs_ascend(inputs, remaps.len()),
        keep_arrival_order(remaps),
        forall|k: int| 0 <= k < lists.len() ==> posting_docs_ascend((#[trigger] lists[k])@),
        forall|k: int, j: int|
            0 <= k < lists.len() && 0 <= j < lists[k]@.len() ==> (#[trigger] lists[k]@[j]).doc
                < remaps[inputs[k].0 as int].len(),
    ensures
        docs_ascend(joined(inputs, lists, remaps, n)),
    decreases n,
{
    if n > 0 {
        arrival_order_needs_no_sort(inputs, lists, remaps, n - 1);
        let before = joined(inputs, lists, remaps, n - 1);
        let remap = remaps[inputs[n - 1].0 as int];
        let added = survivors(lists[n - 1]@, remap);
        let all = joined(inputs, lists, remaps, n);
        assert(inputs[n - 1].0 < remaps.len());
        assert(posting_docs_ascend(lists[n - 1]@));
        lemma_survivors_ascend(lists[n - 1]@, remap);
        assert forall|i: int, j: int| 0 <= i < j < all.len() implies (#[trigger] all[i]).0 < (
        #[trigger] all[j]).0 by {
            let m = before.len() as int;
            if j < m {
                assert(before[i].0 < before[j].0);
            } else if i >= m {
                assert(added[i - m].0 < added[j - m].0);
            } else {
                let (a, x) = lemma_joined_from(inputs, lists, remaps, n - 1, i);
                let y = lemma_survivors_from(lists[n - 1]@, remap, j - m);
                assert(inputs[a].0 < inputs[n - 1].0);
                assert(inputs[a].0 < remaps.len());
                let first = remaps[inputs[a].0 as int];
                assert(lands_before(first, remap));
                assert(lists[a]@[x].doc < first.len());
                assert(lists[n - 1]@[y].doc < remap.len());
                assert(first[lists[a]@[x].doc as int] is Some);
                assert(remap[lists[n - 1]@[y].doc as int] is Some);
            }
        }
    }
}

/// From where a posting's run starts, its run values stand as they are.
pub proof fn runs_stand_at_their_starts(kept: Seq<Kept>, k: int)
    requires
        0 <= k < kept.len(),
    ensures
        0 <= run_start(kept, k),
        run_start(kept, k) + kept[k].2.len() <= all_runs(kept).len(),
        all_runs(kept).subrange(run_start(kept, k), run_start(kept, k) + kept[k].2.len()) == run_values(
            kept[k].2,
        ),
    decreases kept.len(),
{
    let fewer = kept.drop_last();
    let start = run_start(kept, k);
    let end = start + kept[k].2.len();
    if k < fewer.len() {
        runs_stand_at_their_starts(fewer, k);
        assert(fewer.take(k) =~= kept.take(k));
        assert(all_runs(kept).subrange(start, end) =~= all_runs(fewer).subrange(start, end));
    } else {
        assert(kept.take(k) =~= fewer);
        assert(all_runs(kept).subrange(start, end) =~= run_values(kept[k].2));
    }
}

/// An arrangement has the documents ascending, and strictly so where they are distinct.
pub proof fn arranged_docs_ascend(kept: Seq<Kept>, pairs: Seq<(u32, u32)>, starts: Seq<usize>)
    requires
        is_arrangement(kept, pairs, starts),
    ensures
        forall|j: int, k: int| 0 <= j < k < pairs.len() ==> (#[trigger] pairs[j]).0 <= (#[trigger] pairs[k]).0,
        docs_distinct(kept) ==> forall|j: int, k: int|
            0 <= j < k < pairs.len() ==> (#[trigger] pairs[j]).0 < (#[trigger] pairs[k]).0,
{
    let perm = choose|perm: Seq<int>| #[trigger] arranged_by(kept, perm, pairs, starts) && by_document(kept, perm);
    assert(arranged_by(kept, perm, pairs, starts));
    assert forall|j: int, k: int| 0 <= j < k < pairs.len() implies (#[trigger] pairs[j]).0 <= (#[trigger] pairs[k]).0
        && (docs_distinct(kept) ==> pairs[j].0 < pairs[k].0) by {
        assert(goes_before(kept, perm[j], perm[k]));
        assert(perm[j] != perm[k]);
        assert(0 <= perm[j] < kept.len() && 0 <= perm[k] < kept.len());
    }
}

/// Every posting that stays is emitted, once, with its frequency and where its run starts.
pub proof fn every_posting_is_emitted(kept: Seq<Kept>, pairs: Seq<(u32, u32)>, starts: Seq<usize>, i: int)
    requires
        is_arrangement(kept, pairs, starts),
        0 <= i < kept.len(),
    ensures
        pairs.len() == kept.len(),
        starts.len() == kept.len(),
        exists|k: int|
            0 <= k < pairs.len() && #[trigger] pairs[k] == (kept[i].0, kept[i].1) && starts[k] == run_start(
                kept,
                i,
            ),
{
    let perm = choose|perm: Seq<int>| #[trigger] arranged_by(kept, perm, pairs, starts);
    assert(arranged_by(kept, perm, pairs, starts));
    let k = lemma_permutation_hits(perm, i);
    assert(pairs[k] == (kept[perm[k]].0, kept[perm[k]].1));
    assert(starts[k] == run_start(kept, perm[k]));
}

/// A permutation of the first indices takes each of them.
pub proof fn lemma_permutation_hits(perm: Seq<int>, i: int) -> (k: int)
    requires
        perm.no_duplicates(),
        forall|k: int| 0 <= k < perm.len() ==> 0 <= #[trigger] perm[k] < perm.len(),
        0 <= i < perm.len(),
    ensures
        0 <= k < perm.len(),
        perm[k] == i,
{
    let n = perm.len() as int;
    let all = vstd::set_lib::set_int_range(0, n);
    vstd::set_lib::lemma_int_range(0, n);
    perm.unique_seq_to_set();
    assert(perm.to_set().subset_of(all)) by {
        assert forall|x: int| perm.to_set().contains(x) implies all.contains(x) by {
            let k = choose|k: int| 0 <= k < perm.len() && perm[k] == x;
            assert(0 <= perm[k] < perm.len());
        }
    }
    vstd::set_lib::lemma_subset_equality(perm.to_set(), all);
    assert(perm.to_set().contains(i));
    choose|k: int| 0 <= k < perm.len() && perm[k] == i
}

/// Postings have one arrangement: what is encoded of a term is fixed by its postings in the order
/// they were joined.
pub proof fn arrangement_is_unique(
    kept: Seq<Kept>,
    pairs_a: Seq<(u32, u32)>,
    starts_a: Seq<usize>,
    pairs_b: Seq<(u32, u32)>,
    starts_b: Seq<usize>,
)
    requires
        is_arrangement(kept, pairs_a, starts_a),
        is_arrangement(kept, pairs_b, starts_b),
    ensures
        pairs_a == pairs_b,
        starts_a == starts_b,
{
    let perm_a = choose|perm: Seq<int>| #[trigger]
        arranged_by(kept, perm, pairs_a, starts_a) && by_document(kept, perm);
    let perm_b = choose|perm: Seq<int>| #[trigger]
        arranged_by(kept, perm, pairs_b, starts_b) && by_document(kept, perm);
    assert(arranged_by(kept, perm_a, pairs_a, starts_a));
    assert(arranged_by(kept, perm_b, pairs_b, starts_b));
    assert forall|k: int| 0 <= k < kept.len() implies perm_a[k] == #[trigger] perm_b[k] by {
        lemma_same_rank(kept, perm_a, perm_b, k);
    }
    assert(perm_a =~= perm_b);
    assert forall|k: int| 0 <= k < kept.len() implies pairs_a[k] == pairs_b[k] && starts_a[k] == starts_b[k] by {
        assert(pairs_a[k] == (kept[perm_a[k]].0, kept[perm_a[k]].1));
        assert(pairs_b[k] == (kept[perm_b[k]].0, kept[perm_b[k]].1));
        assert(starts_a[k] == run_start(kept, perm_a[k]));
        assert(starts_b[k] == run_start(kept, perm_b[k]));
    }
    assert(pairs_a =~= pairs_b);
    assert(starts_a =~= starts_b);
}

/// Two orders by document take the same posting at `k`.
proof fn lemma_same_rank(kept: Seq<Kept>, perm_a: Seq<int>, perm_b: Seq<int>, k: int)
    requires
        perm_a.len() == kept.len(),
        perm_b.len() == kept.len(),
        perm_a.no_duplicates(),
        perm_b.no_duplicates(),
        forall|i: int| 0 <= i < perm_a.len() ==> 0 <= #[trigger] perm_a[i] < kept.len(),
        forall|i: int| 0 <= i < perm_b.len() ==> 0 <= #[trigger] perm_b[i] < kept.len(),
        by_document(kept, perm_a),
        by_document(kept, perm_b),
        0 <= k < kept.len(),
    ensures
        perm_a[k] == perm_b[k],
    decreases k,
{
    if perm_a[k] != perm_b[k] {
        // Where each takes what the other takes at `k` is later, so each comes before the other.
        let j = lemma_permutation_hits(perm_b, perm_a[k]);
        let i = lemma_permutation_hits(perm_a, perm_b[k]);
        if j < k {
            lemma_same_rank(kept, perm_a, perm_b, j);
            assert(perm_a[j] == perm_a[k]);
            assert(false);
        }
        if i < k {
            lemma_same_rank(kept, perm_a, perm_b, i);
            assert(perm_b[i] == perm_b[k]);
            assert(false);
        }
        assert(goes_before(kept, perm_a[k], perm_a[i]));
        assert(goes_before(kept, perm_b[k], perm_b[j]));
        assert(false);
    }
}

/// Postings that ascend already are arranged as they stand.
pub proof fn ascending_postings_stay_as_they_are(kept: Seq<Kept>, pairs: Seq<(u32, u32)>, starts: Seq<usize>)
    requires
        docs_ascend(kept),
        is_arrangement(kept, pairs, starts),
    ensures
        forall|k: int| 0 <= k < kept.len() ==> #[trigger] pairs[k] == (kept[k].0, kept[k].1),
        forall|k: int| 0 <= k < kept.len() ==> #[trigger] starts[k] == run_start(kept, k),
{
    let perm = choose|perm: Seq<int>| #[trigger] arranged_by(kept, perm, pairs, starts) && by_document(kept, perm);
    let identity = Seq::new(kept.len(), |k: int| k);
    assert(by_document(kept, identity)) by {
        assert forall|j: int, k: int| 0 <= j < k < identity.len() implies goes_before(
            kept,
            #[trigger] identity[j],
            #[trigger] identity[k],
        ) by {
            assert(kept[j].0 < kept[k].0);
        }
    }
    assert forall|k: int| 0 <= k < kept.len() implies #[trigger] pairs[k] == (kept[k].0, kept[k].1) && starts[k]
        == run_start(kept, k) by {
        lemma_same_rank(kept, perm, identity, k);
        assert(starts[k] == run_start(kept, perm[k]));
    }
    assert forall|k: int| 0 <= k < kept.len() implies #[trigger] starts[k] == run_start(kept, k) by {
        assert(pairs[k] == (kept[k].0, kept[k].1));
    }
}

} // verus!
