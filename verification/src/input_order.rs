//! That the order of a merge's inputs does not show in what is merged.
use crate::batch::BatchLimits;
use crate::column_laws::{lemma_written_once, writes_agree};
use crate::counts::{tally_all, total_inputs, MergeCounts};
use crate::dictionary::{ascending_terms, Entry, FstValue, FtsReader, Posting};
use crate::errors::BuildError;
use crate::merge_job::{outputs, readers_of, reads_postings, terms_of, Job, Record, TermRuns};
use crate::merge_laws::{
    all_ascending, merge_holds_every_term, merge_holds_only_terms, merged_terms_ascend,
};
use crate::posting_laws::{
    arranged_docs_ascend, docs_distinct, every_posting_is_emitted, lemma_permutation_hits,
    runs_stand_at_their_starts,
};
use crate::term_merge::{is_merge, MergedTerm};
use crate::term_order::{term_lt, term_lt_asymmetric, term_lt_transitive};
use crate::term_walk::{are_dictionaries, dictionary_of};
use crate::term_work::{
    all_runs, arranged_by, is_arrangement, joined, run_start, run_values, survivors, FtsDocId, Kept,
};
use vstd::prelude::*;

verus! {

/// `perm` takes each of the first `n` indices once.
pub open spec fn is_permutation(perm: Seq<int>, n: nat) -> bool {
    &&& perm.len() == n
    &&& perm.no_duplicates()
    &&& forall|k: int| 0 <= k < perm.len() ==> 0 <= #[trigger] perm[k] < n
}

/// `items` in the order that `perm` gives them.
pub open spec fn reordered<A>(items: Seq<A>, perm: Seq<int>) -> Seq<A> {
    Seq::new(perm.len(), |i: int| items[perm[i]])
}

/// The two lists hold the same items.
pub open spec fn same_items<A>(a: Seq<A>, b: Seq<A>) -> bool {
    &&& forall|i: int| 0 <= i < a.len() ==> b.contains(#[trigger] a[i])
    &&& forall|i: int| 0 <= i < b.len() ==> a.contains(#[trigger] b[i])
}

/// Two lists that ascend strictly and hold the same items agree at `k`.
proof fn lemma_same_at<A>(a: Seq<A>, b: Seq<A>, before: spec_fn(A, A) -> bool, k: int)
    requires
        forall|x: A, y: A| #[trigger] before(x, y) ==> !before(y, x),
        forall|x: A, y: A, z: A| #[trigger] before(x, y) && #[trigger] before(y, z) ==> before(x, z),
        forall|i: int, j: int| 0 <= i < j < a.len() ==> before(#[trigger] a[i], #[trigger] a[j]),
        forall|i: int, j: int| 0 <= i < j < b.len() ==> before(#[trigger] b[i], #[trigger] b[j]),
        same_items(a, b),
        0 <= k < a.len(),
        k < b.len(),
    ensures
        a[k] == b[k],
    decreases k,
{
    assert(b.contains(a[k]));
    assert(a.contains(b[k]));
    let j = choose|j: int| 0 <= j < b.len() && b[j] == a[k];
    let i = choose|i: int| 0 <= i < a.len() && a[i] == b[k];
    if j < k {
        lemma_same_at(a, b, before, j);
        assert(before(a[j], a[k]));
        assert(false);
    }
    if i < k {
        lemma_same_at(a, b, before, i);
        assert(before(b[i], b[k]));
        assert(false);
    }
    if j > k && i > k {
        assert(before(a[k], a[i]));
        assert(before(b[k], b[j]));
        assert(false);
    }
}

/// Two lists that ascend strictly and hold the same items are the same.
proof fn lemma_same_ascending<A>(a: Seq<A>, b: Seq<A>, before: spec_fn(A, A) -> bool)
    requires
        forall|x: A, y: A| #[trigger] before(x, y) ==> !before(y, x),
        forall|x: A, y: A, z: A| #[trigger] before(x, y) && #[trigger] before(y, z) ==> before(x, z),
        forall|i: int, j: int| 0 <= i < j < a.len() ==> before(#[trigger] a[i], #[trigger] a[j]),
        forall|i: int, j: int| 0 <= i < j < b.len() ==> before(#[trigger] b[i], #[trigger] b[j]),
        same_items(a, b),
    ensures
        a == b,
{
    if a.len() < b.len() {
        let k = a.len() as int;
        assert(a.contains(b[k]));
        let i = choose|i: int| 0 <= i < a.len() && a[i] == b[k];
        lemma_same_at(a, b, before, i);
        assert(before(b[i], b[k]));
        assert(false);
    }
    if b.len() < a.len() {
        let k = b.len() as int;
        assert(b.contains(a[k]));
        let j = choose|j: int| 0 <= j < b.len() && b[j] == a[k];
        lemma_same_at(a, b, before, j);
        assert(before(a[j], a[k]));
        assert(false);
    }
    assert forall|k: int| 0 <= k < a.len() implies a[k] == b[k] by {
        lemma_same_at(a, b, before, k);
    }
    assert(a =~= b);
}

/// The bytes of merged terms.
pub open spec fn term_bytes(merged: Seq<MergedTerm>) -> Seq<Seq<u8>> {
    Seq::new(merged.len(), |j: int| merged[j].0)
}

proof fn lemma_reordered_ascending(dicts: Seq<Seq<Entry>>, perm: Seq<int>)
    requires
        all_ascending(dicts),
        is_permutation(perm, dicts.len()),
    ensures
        all_ascending(reordered(dicts, perm)),
{
    let other = reordered(dicts, perm);
    assert forall|i: int| 0 <= i < other.len() implies ascending_terms(#[trigger] other[i]) by {
        assert(0 <= perm[i] < dicts.len());
        assert(other[i] == dicts[perm[i]]);
    }
}

/// Readers in another order have the dictionaries in that order.
proof fn lemma_reordered_dictionaries<R: FtsReader>(
    readers: Seq<&R>,
    others: Seq<&R>,
    column_id: u32,
    dicts: Seq<Seq<Entry>>,
    perm: Seq<int>,
)
    requires
        is_permutation(perm, readers.len()),
        others.len() == readers.len(),
        forall|i: int| 0 <= i < others.len() ==> #[trigger] others[i] == readers[perm[i]],
        are_dictionaries(readers, column_id, dicts),
    ensures
        are_dictionaries(others, column_id, reordered(dicts, perm)),
{
    let other = reordered(dicts, perm);
    assert forall|i: int| 0 <= i < other.len() implies ascending_terms(#[trigger] other[i]) by {
        assert(0 <= perm[i] < dicts.len());
        assert(dictionary_of(readers[perm[i]], column_id, dicts[perm[i]]));
    }
    assert forall|i: int| 0 <= i < other.len() implies #[trigger] dictionary_of(others[i], column_id, other[i]) by {
        assert(0 <= perm[i] < dicts.len());
        assert(dictionary_of(readers[perm[i]], column_id, dicts[perm[i]]));
    }
}

/// An input that holds a term in the one merge holds it in the other.
proof fn lemma_holder_crosses(
    dicts: Seq<Seq<Entry>>,
    perm: Seq<int>,
    a: Seq<MergedTerm>,
    b: Seq<MergedTerm>,
    j: int,
    h: int,
) -> (r: (int, int))
    requires
        all_ascending(dicts),
        dicts.len() <= usize::MAX,
        is_permutation(perm, dicts.len()),
        is_merge(dicts, a),
        is_merge(reordered(dicts, perm), b),
        0 <= j < a.len(),
        0 <= h < a[j].1.len(),
    ensures
        0 <= r.0 < b.len(),
        b[r.0].0 == a[j].0,
        0 <= r.1 < perm.len(),
        perm[r.1] == a[j].1[h].0,
        b[r.0].1.contains((r.1 as usize, a[j].1[h].1)),
{
    let other = reordered(dicts, perm);
    lemma_reordered_ascending(dicts, perm);
    merge_holds_only_terms(dicts, a, j);
    let (i, value) = a[j].1[h];
    assert(dicts[i as int].contains((a[j].0, value)));
    let at = lemma_permutation_hits(perm, i as int);
    let k = choose|k: int| 0 <= k < dicts[i as int].len() && dicts[i as int][k] == (a[j].0, value);
    assert(other[at] == dicts[perm[at]]);
    assert(other[at][k] == (a[j].0, value));
    merge_holds_every_term(other, b, at, k);
    let m = choose|m: int|
        0 <= m < b.len() && (#[trigger] b[m]).0 == other[at][k].0 && b[m].1.contains(
            (at as usize, other[at][k].1),
        );
    (m, at)
}

/// An input that holds a term in the other merge holds it in the one.
proof fn lemma_holder_crosses_back(
    dicts: Seq<Seq<Entry>>,
    perm: Seq<int>,
    a: Seq<MergedTerm>,
    b: Seq<MergedTerm>,
    j: int,
    h: int,
) -> (m: int)
    requires
        all_ascending(dicts),
        dicts.len() <= usize::MAX,
        is_permutation(perm, dicts.len()),
        is_merge(dicts, a),
        is_merge(reordered(dicts, perm), b),
        0 <= j < b.len(),
        0 <= h < b[j].1.len(),
    ensures
        0 <= m < a.len(),
        a[m].0 == b[j].0,
        b[j].1[h].0 < perm.len(),
        a[m].1.contains((perm[b[j].1[h].0 as int] as usize, b[j].1[h].1)),
{
    let other = reordered(dicts, perm);
    lemma_reordered_ascending(dicts, perm);
    merge_holds_only_terms(other, b, j);
    let (i, value) = b[j].1[h];
    assert(other[i as int].contains((b[j].0, value)));
    let from = perm[i as int];
    assert(0 <= from < dicts.len());
    assert(other[i as int] == dicts[from]);
    let k = choose|k: int| 0 <= k < dicts[from].len() && dicts[from][k] == (b[j].0, value);
    merge_holds_every_term(dicts, a, from, k);
    choose|m: int|
        0 <= m < a.len() && (#[trigger] a[m]).0 == dicts[from][k].0 && a[m].1.contains(
            (from as usize, dicts[from][k].1),
        )
}

/// The same dictionaries in another order merge to the same terms.
pub proof fn input_order_leaves_the_terms(
    dicts: Seq<Seq<Entry>>,
    perm: Seq<int>,
    a: Seq<MergedTerm>,
    b: Seq<MergedTerm>,
)
    requires
        all_ascending(dicts),
        dicts.len() <= usize::MAX,
        is_permutation(perm, dicts.len()),
        is_merge(dicts, a),
        is_merge(reordered(dicts, perm), b),
    ensures
        term_bytes(a) == term_bytes(b),
{
    let other = reordered(dicts, perm);
    lemma_reordered_ascending(dicts, perm);
    let s = term_bytes(a);
    let t = term_bytes(b);
    let before = |x: Seq<u8>, y: Seq<u8>| term_lt(x, y);
    assert forall|i: int, j: int| 0 <= i < j < s.len() implies before(#[trigger] s[i], #[trigger] s[j]) by {
        merged_terms_ascend(dicts, a, i, j);
    }
    assert forall|i: int, j: int| 0 <= i < j < t.len() implies before(#[trigger] t[i], #[trigger] t[j]) by {
        merged_terms_ascend(other, b, i, j);
    }
    assert forall|i: int| 0 <= i < s.len() implies t.contains(#[trigger] s[i]) by {
        merge_holds_only_terms(dicts, a, i);
        let (m, at) = lemma_holder_crosses(dicts, perm, a, b, i, 0);
        assert(t[m] == s[i]);
    }
    assert forall|i: int| 0 <= i < t.len() implies s.contains(#[trigger] t[i]) by {
        merge_holds_only_terms(other, b, i);
        let m = lemma_holder_crosses_back(dicts, perm, a, b, i, 0);
        assert(s[m] == t[i]);
    }
    assert forall|x: Seq<u8>, y: Seq<u8>| #[trigger] before(x, y) implies !before(y, x) by {
        term_lt_asymmetric(x, y);
    }
    assert forall|x: Seq<u8>, y: Seq<u8>, z: Seq<u8>| #[trigger] before(x, y) && #[trigger] before(y, z) implies before(
        x,
        z,
    ) by {
        term_lt_transitive(x, y, z);
    }
    lemma_same_ascending(s, t, before);
}

/// Two lists that hold the same items, each once, are as long as each other.
proof fn lemma_same_length<A>(a: Seq<A>, b: Seq<A>)
    requires
        a.no_duplicates(),
        b.no_duplicates(),
        same_items(a, b),
    ensures
        a.len() == b.len(),
{
    a.unique_seq_to_set();
    b.unique_seq_to_set();
    assert(a.to_set() =~= b.to_set()) by {
        assert forall|x: A| a.to_set().contains(x) implies b.to_set().contains(x) by {
            let i = choose|i: int| 0 <= i < a.len() && a[i] == x;
            assert(b.contains(a[i]));
        }
        assert forall|x: A| b.to_set().contains(x) implies a.to_set().contains(x) by {
            let i = choose|i: int| 0 <= i < b.len() && b[i] == x;
            assert(a.contains(b[i]));
        }
    }
}

/// The inputs of a term of the other merge, under their numbers in the one.
pub open spec fn back_numbered(b: MergedTerm, perm: Seq<int>) -> Seq<(usize, FstValue)> {
    Seq::new(b.1.len(), |h: int| (perm[b.1[h].0 as int] as usize, b.1[h].1))
}

/// Two merged terms are one term, held by the same inputs with the same values. Input `i` of `b`
/// is input `perm[i]` of `a`.
pub open spec fn same_term(a: MergedTerm, b: MergedTerm, perm: Seq<int>) -> bool {
    &&& a.0 == b.0
    &&& a.1.len() == b.1.len()
    &&& forall|h: int| 0 <= h < b.1.len() ==> (#[trigger] b.1[h]).0 < perm.len()
    &&& same_items(a.1, back_numbered(b, perm))
}

/// The same dictionaries in another order have every term held by the same inputs.
pub proof fn input_order_leaves_the_holders(
    dicts: Seq<Seq<Entry>>,
    perm: Seq<int>,
    a: Seq<MergedTerm>,
    b: Seq<MergedTerm>,
    j: int,
)
    requires
        all_ascending(dicts),
        dicts.len() <= usize::MAX,
        is_permutation(perm, dicts.len()),
        is_merge(dicts, a),
        is_merge(reordered(dicts, perm), b),
        0 <= j < a.len(),
    ensures
        j < b.len(),
        same_term(a[j], b[j], perm),
{
    let other = reordered(dicts, perm);
    lemma_reordered_ascending(dicts, perm);
    input_order_leaves_the_terms(dicts, perm, a, b);
    assert(term_bytes(a).len() == term_bytes(b).len());
    assert(term_bytes(a)[j] == term_bytes(b)[j]);
    merge_holds_only_terms(dicts, a, j);
    merge_holds_only_terms(other, b, j);
    let back = back_numbered(b[j], perm);
    assert forall|h: int| 0 <= h < b[j].1.len() implies (#[trigger] b[j].1[h]).0 < perm.len() by {
        let (i, value) = b[j].1[h];
    }
    assert forall|h: int| 0 <= h < a[j].1.len() implies back.contains(#[trigger] a[j].1[h]) by {
        let (m, at) = lemma_holder_crosses(dicts, perm, a, b, j, h);
        if m < j {
            merged_terms_ascend(other, b, m, j);
            term_lt_asymmetric(b[j].0, b[j].0);
        }
        if j < m {
            merged_terms_ascend(other, b, j, m);
            term_lt_asymmetric(b[j].0, b[j].0);
        }
        let g = choose|g: int| 0 <= g < b[j].1.len() && b[j].1[g] == (at as usize, a[j].1[h].1);
        assert(back[g] == a[j].1[h]);
    }
    assert forall|h: int| 0 <= h < back.len() implies a[j].1.contains(#[trigger] back[h]) by {
        let m = lemma_holder_crosses_back(dicts, perm, a, b, j, h);
        if m < j {
            merged_terms_ascend(dicts, a, m, j);
            term_lt_asymmetric(a[j].0, a[j].0);
        }
        if j < m {
            merged_terms_ascend(dicts, a, j, m);
            term_lt_asymmetric(a[j].0, a[j].0);
        }
    }
    assert(a[j].1.no_duplicates()) by {
        assert forall|g: int, h: int| 0 <= g < a[j].1.len() && 0 <= h < a[j].1.len() && g != h implies a[j].1[g]
            != a[j].1[h] by {
            if g < h {
                assert(a[j].1[g].0 < a[j].1[h].0);
            } else {
                assert(a[j].1[h].0 < a[j].1[g].0);
            }
        }
    }
    assert(back.no_duplicates()) by {
        assert forall|g: int, h: int| 0 <= g < back.len() && 0 <= h < back.len() && g != h implies back[g]
            != back[h] by {
            if g < h {
                assert(b[j].1[g].0 < b[j].1[h].0);
            } else {
                assert(b[j].1[h].0 < b[j].1[g].0);
            }
            assert(0 <= perm[b[j].1[g].0 as int] < dicts.len());
            assert(0 <= perm[b[j].1[h].0 as int] < dicts.len());
            assert(perm[b[j].1[g].0 as int] != perm[b[j].1[h].0 as int]);
        }
    }
    lemma_same_length(a[j].1, back);
}

/// Where a joined posting comes from: one of the lists.
proof fn lemma_joined_of(
    inputs: Seq<(usize, FstValue)>,
    lists: Seq<Vec<Posting>>,
    remaps: Seq<Seq<Option<FtsDocId>>>,
    n: int,
    p: Kept,
)
    requires
        0 <= n <= lists.len(),
    ensures
        joined(inputs, lists, remaps, n).contains(p) <==> exists|k: int|
            0 <= k < n && survivors(#[trigger] lists[k]@, remaps[inputs[k].0 as int]).contains(p),
    decreases n,
{
    let all = joined(inputs, lists, remaps, n);
    if n > 0 {
        lemma_joined_of(inputs, lists, remaps, n - 1, p);
        let before = joined(inputs, lists, remaps, n - 1);
        let added = survivors(lists[n - 1]@, remaps[inputs[n - 1].0 as int]);
        if all.contains(p) {
            let i = choose|i: int| 0 <= i < all.len() && all[i] == p;
            if i < before.len() {
                assert(before[i] == p);
                assert(before.contains(p));
                let k = choose|k: int|
                    0 <= k < n - 1 && survivors(#[trigger] lists[k]@, remaps[inputs[k].0 as int]).contains(p);
                assert(0 <= k < n && survivors(lists[k]@, remaps[inputs[k].0 as int]).contains(p));
            } else {
                assert(added[i - before.len()] == p);
                assert(added.contains(p));
                assert(survivors(lists[n - 1]@, remaps[inputs[n - 1].0 as int]).contains(p));
            }
        }
        if exists|k: int|
            0 <= k < n && survivors(#[trigger] lists[k]@, remaps[inputs[k].0 as int]).contains(p) {
            let k = choose|k: int|
                0 <= k < n && survivors(#[trigger] lists[k]@, remaps[inputs[k].0 as int]).contains(p);
            if k < n - 1 {
                assert(before.contains(p));
                let i = choose|i: int| 0 <= i < before.len() && before[i] == p;
                assert(all[i] == p);
            } else {
                let i = choose|i: int| 0 <= i < added.len() && added[i] == p;
                assert(all[before.len() + i] == p);
            }
        }
    }
}

/// Postings with distinct documents come out by ascending document in one way, each with its
/// run, in whatever order they arrive.
pub proof fn arrival_of_postings_does_not_matter(
    kept_a: Seq<Kept>,
    pairs_a: Seq<(u32, u32)>,
    starts_a: Seq<usize>,
    kept_b: Seq<Kept>,
    pairs_b: Seq<(u32, u32)>,
    starts_b: Seq<usize>,
)
    requires
        docs_distinct(kept_a),
        docs_distinct(kept_b),
        same_items(kept_a, kept_b),
        is_arrangement(kept_a, pairs_a, starts_a),
        is_arrangement(kept_b, pairs_b, starts_b),
    ensures
        pairs_a == pairs_b,
        forall|k: int| 0 <= k < pairs_a.len() ==> #[trigger] same_run(kept_a, starts_a, kept_b, starts_b, k),
{
    arranged_docs_ascend(kept_a, pairs_a, starts_a);
    arranged_docs_ascend(kept_b, pairs_b, starts_b);
    let perm_a = choose|perm: Seq<int>| #[trigger] arranged_by(kept_a, perm, pairs_a, starts_a);
    let perm_b = choose|perm: Seq<int>| #[trigger] arranged_by(kept_b, perm, pairs_b, starts_b);
    assert(arranged_by(kept_a, perm_a, pairs_a, starts_a));
    assert(arranged_by(kept_b, perm_b, pairs_b, starts_b));
    let before = |x: (u32, u32), y: (u32, u32)| x.0 < y.0;
    assert forall|i: int| 0 <= i < pairs_a.len() implies pairs_b.contains(#[trigger] pairs_a[i]) by {
        assert(pairs_a[i] == (kept_a[perm_a[i]].0, kept_a[perm_a[i]].1));
        assert(kept_b.contains(kept_a[perm_a[i]]));
        let j = choose|j: int| 0 <= j < kept_b.len() && kept_b[j] == kept_a[perm_a[i]];
        every_posting_is_emitted(kept_b, pairs_b, starts_b, j);
    }
    assert forall|i: int| 0 <= i < pairs_b.len() implies pairs_a.contains(#[trigger] pairs_b[i]) by {
        assert(pairs_b[i] == (kept_b[perm_b[i]].0, kept_b[perm_b[i]].1));
        assert(kept_a.contains(kept_b[perm_b[i]]));
        let j = choose|j: int| 0 <= j < kept_a.len() && kept_a[j] == kept_b[perm_b[i]];
        every_posting_is_emitted(kept_a, pairs_a, starts_a, j);
    }
    lemma_same_ascending(pairs_a, pairs_b, before);
    assert forall|k: int| 0 <= k < pairs_a.len() implies #[trigger] same_run(
        kept_a,
        starts_a,
        kept_b,
        starts_b,
        k,
    ) by {
        let i = perm_a[k];
        let j = perm_b[k];
        assert(pairs_a[k] == (kept_a[i].0, kept_a[i].1));
        assert(pairs_b[k] == (kept_b[j].0, kept_b[j].1));
        assert(starts_a[k] == run_start(kept_a, i));
        assert(starts_b[k] == run_start(kept_b, j));
        assert(kept_b.contains(kept_a[i]));
        let m = choose|m: int| 0 <= m < kept_b.len() && kept_b[m] == kept_a[i];
        assert(m == j);
        runs_stand_at_their_starts(kept_a, i);
        runs_stand_at_their_starts(kept_b, j);
        assert(run_stands(kept_a, starts_a[k] as int, kept_a[i].2));
        assert(run_stands(kept_b, starts_b[k] as int, kept_a[i].2));
    }
}

/// The run of `positions` stands at `start` among the run values of `kept`.
pub open spec fn run_stands(kept: Seq<Kept>, start: int, positions: Seq<u32>) -> bool {
    &&& start + positions.len() <= all_runs(kept).len()
    &&& all_runs(kept).subrange(start, start + positions.len()) == run_values(positions)
}

/// Posting `k` has the same run in both.
pub open spec fn same_run(
    kept_a: Seq<Kept>,
    starts_a: Seq<usize>,
    kept_b: Seq<Kept>,
    starts_b: Seq<usize>,
    k: int,
) -> bool {
    exists|positions: Seq<u32>| #[trigger]
        run_stands(kept_a, starts_a[k] as int, positions) && run_stands(kept_b, starts_b[k] as int, positions)
}

/// Taking one posting out takes its run's values out of the count.
proof fn lemma_runs_without(kept: Seq<Kept>, i: int)
    requires
        0 <= i < kept.len(),
    ensures
        all_runs(kept).len() == all_runs(kept.remove(i)).len() + kept[i].2.len(),
    decreases kept.len(),
{
    let n = kept.len() - 1;
    if i == n {
        assert(kept.remove(i) =~= kept.drop_last());
    } else {
        lemma_runs_without(kept.drop_last(), i);
        assert(kept.remove(i).drop_last() =~= kept.drop_last().remove(i));
        assert(kept.remove(i).last() == kept.last());
    }
}

/// The same postings have as many run values in any order.
proof fn lemma_same_runs(a: Seq<Kept>, b: Seq<Kept>)
    requires
        a.no_duplicates(),
        b.no_duplicates(),
        same_items(a, b),
    ensures
        all_runs(a).len() == all_runs(b).len(),
    decreases a.len(),
{
    lemma_same_length(a, b);
    if a.len() > 0 {
        let n = a.len() - 1;
        assert(b.contains(a[n]));
        let i = choose|i: int| 0 <= i < b.len() && b[i] == a[n];
        let fewer = b.remove(i);
        assert(fewer.no_duplicates()) by {
            assert forall|g: int, h: int| 0 <= g < fewer.len() && 0 <= h < fewer.len() && g != h implies fewer[g]
                != fewer[h] by {
                let bg = if g < i { g } else { g + 1 };
                let bh = if h < i { h } else { h + 1 };
                assert(fewer[g] == b[bg] && fewer[h] == b[bh]);
            }
        }
        assert forall|g: int| 0 <= g < a.drop_last().len() implies fewer.contains(#[trigger] a.drop_last()[g]) by {
            assert(b.contains(a[g]));
            let h = choose|h: int| 0 <= h < b.len() && b[h] == a[g];
            assert(h != i);
            let at = if h < i { h } else { h - 1 };
            assert(fewer[at] == a[g]);
        }
        assert forall|g: int| 0 <= g < fewer.len() implies a.drop_last().contains(#[trigger] fewer[g]) by {
            let bg = if g < i { g } else { g + 1 };
            assert(fewer[g] == b[bg]);
            assert(a.contains(b[bg]));
            let h = choose|h: int| 0 <= h < a.len() && a[h] == b[bg];
            assert(h != n);
            assert(a.drop_last()[h] == fewer[g]);
        }
        lemma_same_runs(a.drop_last(), fewer);
        lemma_runs_without(b, i);
    }
}

/// Postings with distinct documents are distinct.
proof fn lemma_distinct(kept: Seq<Kept>)
    requires
        docs_distinct(kept),
    ensures
        kept.no_duplicates(),
{
}

/// Two records are of one term, with the same postings and the same output.
pub open spec fn same_record<T>(a: Record<T>, b: Record<T>) -> bool {
    &&& a.term.0 == b.term.0
    &&& a.term.1.len() == b.term.1.len()
    &&& a.kept.len() == b.kept.len()
    &&& all_runs(a.kept).len() == all_runs(b.kept).len()
    &&& a.output == b.output
}

/// The same records have the same outputs and, but for what was sorted, the same counts.
proof fn lemma_same_records<T>(a: Seq<Record<T>>, b: Seq<Record<T>>)
    requires
        a.len() == b.len(),
        forall|k: int| 0 <= k < a.len() ==> same_record(#[trigger] a[k], #[trigger] b[k]),
    ensures
        outputs(a) == outputs(b),
        tally_all(a).postings == tally_all(b).postings,
        tally_all(a).run_values == tally_all(b).run_values,
        total_inputs(a) == total_inputs(b),
    decreases a.len(),
{
    if a.len() > 0 {
        let n = a.len() - 1;
        assert(same_record(a[n], b[n]));
        assert forall|k: int| 0 <= k < a.drop_last().len() implies same_record(
            #[trigger] a.drop_last()[k],
            #[trigger] b.drop_last()[k],
        ) by {
            assert(same_record(a[k], b[k]));
        }
        lemma_same_records(a.drop_last(), b.drop_last());
    }
}

impl<R: FtsReader, S, N: Fn() -> S, E> Job<R, S, N, E> {
    /// No two postings of a term land on one output document.
    pub open spec fn rows_land_apart(&self) -> bool {
        forall|term: MergedTerm, lists: Seq<Vec<Posting>>| #[trigger]
            self.lists_read(term, lists) ==> docs_distinct(self.kept(term, lists))
    }

    /// `other` is the same merge with its inputs in the order that `perm` gives them.
    pub open spec fn rearranged(&self, other: Self, perm: Seq<int>) -> bool {
        &&& is_permutation(perm, self.inputs.len())
        &&& other.inputs == reordered(self.inputs, perm)
        &&& other.column_id == self.column_id
        &&& other.encode == self.encode
    }

    /// What encoding yields depends on the documents' frequencies and positions alone, not on the
    /// state or on where among the values their runs stand.
    pub open spec fn encodes_documents<T>(&self) -> bool where
        E: Fn(S, &[(u32, u32)], TermRuns<'_>) -> (S, Result<T, BuildError>),
     {
        forall|a: Seq<Kept>, b: Seq<Kept>, x: T, y: T|
            docs_distinct(a) && docs_distinct(b) && same_items(a, b) && #[trigger] self.can_yield(a, x)
                && #[trigger] self.can_yield(b, y) ==> x == y
    }

    /// Encoding `kept`, whatever the state, can yield `out`.
    pub open spec fn can_yield<T>(&self, kept: Seq<Kept>, out: T) -> bool where
        E: Fn(S, &[(u32, u32)], TermRuns<'_>) -> (S, Result<T, BuildError>),
     {
        exists|s: S, after: S| #[trigger] self.encodes(s, kept, after, Ok(out))
    }

    /// What an encoding of the other merge yields, one of this can yield.
    proof fn lemma_other_yields<T>(&self, other: Self, kept: Seq<Kept>, out: T) where
        E: Fn(S, &[(u32, u32)], TermRuns<'_>) -> (S, Result<T, BuildError>),

        requires
            other.encode == self.encode,
            other.encodes_to(kept, out),
        ensures
            self.can_yield(kept, out),
    {
        let (s, after) = choose|s: S, after: S|
            other.reachable::<T>(s) && #[trigger] other.encodes(s, kept, after, Ok(out));
        let result: Result<T, BuildError> = Ok(out);
        assert(other.encodes(s, kept, after, result));
        let (pairs, values, starts) = choose|pairs: &[(u32, u32)], values: &[u32], starts: &[usize]|
            is_arrangement(kept, pairs@, starts@) && values@ == all_runs(kept)
                && #[trigger] other.encode.ensures(
                (s, pairs, TermRuns::Values { values, starts }),
                (after, result),
            );
        assert(self.encode.ensures((s, pairs, TermRuns::Values { values, starts }), (after, result)));
        assert(self.encodes(s, kept, after, result));
    }

    /// Of one term, whose inputs are the same in another order, the same postings stay.
    pub proof fn input_order_leaves_the_postings(
        &self,
        other: Self,
        perm: Seq<int>,
        term: MergedTerm,
        kept: Seq<Kept>,
        other_term: MergedTerm,
        other_kept: Seq<Kept>,
    )
        requires
            self.rearranged(other, perm),
            self.inputs.len() <= usize::MAX,
            self.reads_agree(),
            same_term(term, other_term, perm),
            self.stays(term, kept),
            other.stays(other_term, other_kept),
        ensures
            same_items(kept, other_kept),
    {
        let lists = choose|lists: Seq<Vec<Posting>>| #[trigger]
            self.lists_read(term, lists) && kept == self.kept(term, lists);
        let others = choose|lists: Seq<Vec<Posting>>| #[trigger]
            other.lists_read(other_term, lists) && other_kept == other.kept(other_term, lists);
        let n = term.1.len() as int;
        let back = back_numbered(other_term, perm);
        assert forall|k: int, h: int| 0 <= k < n && 0 <= h < n && #[trigger] term.1[k] == #[trigger] back[h] implies
            lists[k] == others[h] && self.remaps()[term.1[k].0 as int] == other.remaps()[other_term.1[h].0 as int] by {
            let i = other_term.1[h].0 as int;
            assert(other_term.1[h].0 < perm.len());
            assert(0 <= perm[i] < self.inputs.len());
            assert(other.inputs[i] == self.inputs[perm[i]]);
            let at = term.1[k].0 as int;
            assert(at == perm[i]);
            assert(reads_postings(self.fts(at), self.column_id, term.0, term.1[k].1, Ok(lists[k])));
            assert(reads_postings(other.fts(i), other.column_id, other_term.0, other_term.1[h].1, Ok(others[h])));
            assert(reads_postings(self.fts(at), self.column_id, term.0, term.1[k].1, Ok(others[h])));
        }
        assert forall|x: int| 0 <= x < kept.len() implies other_kept.contains(#[trigger] kept[x]) by {
            let p = kept[x];
            assert(kept.contains(p));
            lemma_joined_of(term.1, lists, self.remaps(), n, p);
            let k = choose|k: int|
                0 <= k < n && survivors(#[trigger] lists[k]@, self.remaps()[term.1[k].0 as int]).contains(p);
            assert(back.contains(term.1[k]));
            let h = choose|h: int| 0 <= h < back.len() && back[h] == term.1[k];
            assert(lists[k] == others[h]);
            lemma_joined_of(other_term.1, others, other.remaps(), n, p);
            assert(survivors(others[h]@, other.remaps()[other_term.1[h].0 as int]).contains(p));
        }
        assert forall|x: int| 0 <= x < other_kept.len() implies kept.contains(#[trigger] other_kept[x]) by {
            let p = other_kept[x];
            assert(other_kept.contains(p));
            lemma_joined_of(other_term.1, others, other.remaps(), n, p);
            let h = choose|h: int|
                0 <= h < n && survivors(#[trigger] others[h]@, other.remaps()[other_term.1[h].0 as int]).contains(p);
            assert(term.1.contains(back[h]));
            let k = choose|k: int| 0 <= k < n && term.1[k] == back[h];
            assert(lists[k] == others[h]);
            lemma_joined_of(term.1, lists, self.remaps(), n, p);
            assert(survivors(lists[k]@, self.remaps()[term.1[k].0 as int]).contains(p));
        }
    }

    /// One term, whose inputs are the same in another order, comes out as the same output.
    proof fn lemma_same_output<T>(&self, other: Self, perm: Seq<int>, a: Record<T>, b: Record<T>) where
        E: Fn(S, &[(u32, u32)], TermRuns<'_>) -> (S, Result<T, BuildError>),

        requires
            self.rearranged(other, perm),
            self.inputs.len() <= usize::MAX,
            self.reads_agree(),
            self.encodes_documents::<T>(),
            self.rows_land_apart(),
            other.rows_land_apart(),
            same_term(a.term, b.term, perm),
            self.is_record(a),
            other.is_record(b),
        ensures
            same_record(a, b),
    {
        self.input_order_leaves_the_postings(other, perm, a.term, a.kept, b.term, b.kept);
        let lists = choose|lists: Seq<Vec<Posting>>| #[trigger]
            self.lists_read(a.term, lists) && a.kept == self.kept(a.term, lists);
        assert(self.lists_read(a.term, lists));
        let others = choose|lists: Seq<Vec<Posting>>| #[trigger]
            other.lists_read(b.term, lists) && b.kept == other.kept(b.term, lists);
        assert(other.lists_read(b.term, others));
        lemma_distinct(a.kept);
        lemma_distinct(b.kept);
        lemma_same_length(a.kept, b.kept);
        lemma_same_runs(a.kept, b.kept);
        if let Some(x) = a.output {
            if let Some(y) = b.output {
                self.lemma_other_yields(*self, a.kept, x);
                self.lemma_other_yields(other, b.kept, y);
                assert(self.can_yield(a.kept, x) && self.can_yield(b.kept, y));
            }
        }
    }

    /// The order of the inputs does not show: where reads, encodings and writes depend on nothing
    /// but what they are given, and rows land apart, merging the same inputs in another order leaves
    /// the same in the sink, and counts as many postings, inputs of terms and run values. How many
    /// terms had to be sorted does depend on it.
    pub proof fn input_order_does_not_matter<T, W, F: Fn(W, &str, T) -> (W, Result<(), BuildError>)>(
        &self,
        other: Self,
        perm: Seq<int>,
        write: F,
        from: W,
        limits_a: BatchLimits,
        a: W,
        handed_a: Seq<S>,
        counts_a: MergeCounts,
        limits_b: BatchLimits,
        b: W,
        handed_b: Seq<S>,
        counts_b: MergeCounts,
    ) where E: Fn(S, &[(u32, u32)], TermRuns<'_>) -> (S, Result<T, BuildError>)
        requires
            self.rearranged(other, perm),
            self.inputs.len() <= usize::MAX,
            self.in_term_order(),
            self.reads_agree(),
            self.encodes_documents::<T>(),
            self.rows_land_apart(),
            other.rows_land_apart(),
            writes_agree::<T, W, F>(write),
            self.completed(limits_a, write, from, a, handed_a, counts_a),
            other.completed(limits_b, write, from, b, handed_b, counts_b),
        ensures
            a == b,
            counts_a.postings == counts_b.postings,
            counts_a.term_inputs == counts_b.term_inputs,
            counts_a.run_values == counts_b.run_values,
    {
        let dicts = choose|dicts: Seq<Seq<Entry>>| self.dictionaries(dicts);
        assert(self.dictionaries(dicts));
        let others = reordered(dicts, perm);
        lemma_reordered_dictionaries(
            readers_of(self.inputs),
            readers_of(other.inputs),
            self.column_id,
            dicts,
            perm,
        );
        assert(other.dictionaries(others));
        assert(all_ascending(dicts)) by {
            assert forall|i: int| 0 <= i < dicts.len() implies ascending_terms(#[trigger] dicts[i]) by {
                assert(dictionary_of(readers_of(self.inputs)[i], self.column_id, dicts[i]));
            }
        }
        let records_a = self.lemma_completed(limits_a, write, from, a, handed_a, counts_a);
        let records_b = other.lemma_completed(limits_b, write, from, b, handed_b, counts_b);
        let terms_a = terms_of(records_a);
        let terms_b = terms_of(records_b);
        input_order_leaves_the_terms(dicts, perm, terms_a, terms_b);
        assert(term_bytes(terms_a).len() == term_bytes(terms_b).len());
        assert forall|k: int| 0 <= k < records_a.len() implies same_record(
            #[trigger] records_a[k],
            #[trigger] records_b[k],
        ) by {
            input_order_leaves_the_holders(dicts, perm, terms_a, terms_b, k);
            assert(terms_a[k] == records_a[k].term && terms_b[k] == records_b[k].term);
            self.lemma_same_output(other, perm, records_a[k], records_b[k]);
        }
        lemma_same_records(records_a, records_b);
        lemma_written_once(write, outputs(records_a), from, a, b);
    }
}

} // verus!
