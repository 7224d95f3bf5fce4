//! What becomes of each posting: kept or dropped, and how it is laid out.
use crate::counts::{
    capped, no_tally, tally, tally_all, tally_of, total_inputs, MergeCounts, Tally, TermCounts,
};
use crate::dictionary::{FstValue, Posting};
use crate::merge_job::{Record, Step};
use crate::posting_laws::{lemma_permutation_hits, runs_stand_at_their_starts};
use crate::term_work::{
    all_runs, arranged_by, by_document, goes_before, is_arrangement, joined, run_start, run_values,
    sum_of, survivors, FtsDocId, Kept,
};
use vstd::prelude::*;

verus! {

/// What stays of some postings is those whose documents the remap keeps, in turn, each with its
/// output document, its frequency and its positions.
pub proof fn postings_stay_with_their_documents(postings: Seq<Posting>, remap: Seq<Option<FtsDocId>>)
    ensures
        survivors(postings, remap) == postings.filter(
            |p: Posting| remap[p.doc as int] is Some,
        ).map_values(|p: Posting| (remap[p.doc as int]->0.id, p.tf, p.positions@)),
    decreases postings.len(),
{
    reveal(Seq::filter);
    let stay = |p: Posting| remap[p.doc as int] is Some;
    let place = |p: Posting| (remap[p.doc as int]->0.id, p.tf, p.positions@);
    if postings.len() == 0 {
        assert(survivors(postings, remap) =~= postings.filter(stay).map_values(place));
    } else {
        postings_stay_with_their_documents(postings.drop_last(), remap);
        assert(survivors(postings, remap) =~= postings.filter(stay).map_values(place));
    }
}

/// Which postings stay: `from` has the place of each in turn, and the place of every posting whose
/// document the remap keeps; each is kept whole, under its output document, with its frequency and
/// all of its positions.
pub proof fn every_kept_posting_is_whole(postings: Seq<Posting>, remap: Seq<Option<FtsDocId>>) -> (from: Seq<
    int,
>)
    ensures
        survivors(postings, remap).len() == from.len(),
        forall|i: int, j: int| 0 <= i < j < from.len() ==> #[trigger] from[i] < #[trigger] from[j],
        forall|i: int| 0 <= i < from.len() ==> 0 <= #[trigger] from[i] < postings.len(),
        forall|i: int|
            0 <= i < from.len() ==> remap[postings[#[trigger] from[i]].doc as int] == Some(
                FtsDocId { id: survivors(postings, remap)[i].0 },
            ) && survivors(postings, remap)[i].1 == postings[from[i]].tf && survivors(postings, remap)[i].2
                == postings[from[i]].positions@,
        forall|k: int|
            0 <= k < postings.len() && remap[(#[trigger] postings[k]).doc as int] is Some ==> from.contains(k),
    decreases postings.len(),
{
    if postings.len() == 0 {
        Seq::empty()
    } else {
        let fewer = postings.drop_last();
        let before = every_kept_posting_is_whole(fewer, remap);
        let last = postings.len() - 1;
        let kept = survivors(postings, remap);
        let from = if remap[postings[last].doc as int] is Some {
            before.push(last)
        } else {
            before
        };
        assert forall|i: int| 0 <= i < from.len() implies remap[postings[#[trigger] from[i]].doc as int] == Some(
            FtsDocId { id: kept[i].0 },
        ) && kept[i].1 == postings[from[i]].tf && kept[i].2 == postings[from[i]].positions@ by {
            if i < before.len() {
                assert(from[i] == before[i]);
                assert(fewer[before[i]] == postings[from[i]]);
                assert(kept[i] == survivors(fewer, remap)[i]);
            }
        }
        assert forall|i: int| 0 <= i < from.len() implies 0 <= #[trigger] from[i] < postings.len() by {
            if i < before.len() {
                assert(from[i] == before[i]);
            }
        }
        assert forall|i: int, j: int| 0 <= i < j < from.len() implies #[trigger] from[i] < #[trigger] from[j] by {
            assert(from[i] == before[i]);
            if j < before.len() {
                assert(from[j] == before[j]);
            }
        }
        assert forall|k: int| 0 <= k < postings.len() && remap[(#[trigger] postings[k]).doc as int]
            is Some implies from.contains(k) by {
            if k < last {
                assert(fewer[k] == postings[k]);
                let i = choose|i: int| 0 <= i < before.len() && before[i] == k;
                assert(from[i] == k);
            } else {
                assert(from[before.len() as int] == k);
            }
        }
        from
    }
}

/// A posting whose document the remap keeps is kept, under that document, with its frequency and
/// all of its positions.
pub proof fn a_posting_stays_with_its_document(
    postings: Seq<Posting>,
    remap: Seq<Option<FtsDocId>>,
    k: int,
    out: FtsDocId,
)
    requires
        0 <= k < postings.len(),
        remap[postings[k].doc as int] == Some(out),
    ensures
        survivors(postings, remap).contains((out.id, postings[k].tf, postings[k].positions@)),
{
    let from = every_kept_posting_is_whole(postings, remap);
    assert(from.contains(k));
    let i = choose|i: int| 0 <= i < from.len() && from[i] == k;
    assert(survivors(postings, remap)[i] == (out.id, postings[k].tf, postings[k].positions@));
}

/// As many postings stay as there are whose documents the remap keeps.
pub proof fn kept_postings_are_counted(postings: Seq<Posting>, remap: Seq<Option<FtsDocId>>)
    ensures
        survivors(postings, remap).len() == postings.filter(
            |p: Posting| remap[p.doc as int] is Some,
        ).len(),
{
    postings_stay_with_their_documents(postings, remap);
}

/// A term's postings are joined list after list.
pub proof fn lists_are_joined_in_turn(
    inputs: Seq<(usize, FstValue)>,
    lists: Seq<Vec<Posting>>,
    remaps: Seq<Seq<Option<FtsDocId>>>,
    n: nat,
)
    ensures
        joined(inputs, lists, remaps, n as int) == Seq::new(
            n,
            |k: int| survivors(lists[k]@, remaps[inputs[k].0 as int]),
        ).flatten(),
    decreases n,
{
    let parts = Seq::new(n, |k: int| survivors(lists[k]@, remaps[inputs[k].0 as int]));
    parts.lemma_flatten_and_flatten_alt_are_equivalent();
    if n > 0 {
        let fewer = Seq::new((n - 1) as nat, |k: int| survivors(lists[k]@, remaps[inputs[k].0 as int]));
        lists_are_joined_in_turn(inputs, lists, remaps, (n - 1) as nat);
        fewer.lemma_flatten_and_flatten_alt_are_equivalent();
        assert(parts.drop_last() =~= fewer);
        assert(parts.flatten_alt() == fewer.flatten_alt() + parts.last());
    }
}

/// Where each joined posting comes from: `from` has the list of each, and its place there, in turn,
/// and those of every posting of the first `n` lists whose document its input's remap keeps; each is
/// kept whole.
pub proof fn every_joined_posting_is_whole(
    inputs: Seq<(usize, FstValue)>,
    lists: Seq<Vec<Posting>>,
    remaps: Seq<Seq<Option<FtsDocId>>>,
    n: int,
) -> (from: Seq<(int, int)>)
    requires
        0 <= n <= lists.len(),
    ensures
        joined(inputs, lists, remaps, n).len() == from.len(),
        forall|i: int, j: int|
            0 <= i < j < from.len() ==> (#[trigger] from[i]).0 < (#[trigger] from[j]).0 || from[i].0 == from[j].0
                && from[i].1 < from[j].1,
        forall|i: int|
            0 <= i < from.len() ==> 0 <= (#[trigger] from[i]).0 < n && 0 <= from[i].1 < lists[from[i].0]@.len(),
        forall|i: int|
            0 <= i < from.len() ==> {
                let posting = lists[(#[trigger] from[i]).0]@[from[i].1];
                &&& remaps[inputs[from[i].0].0 as int][posting.doc as int] == Some(
                    FtsDocId { id: joined(inputs, lists, remaps, n)[i].0 },
                )
                &&& joined(inputs, lists, remaps, n)[i].1 == posting.tf
                &&& joined(inputs, lists, remaps, n)[i].2 == posting.positions@
            },
        forall|a: int, k: int|
            0 <= a < n && 0 <= k < lists[a]@.len() && remaps[inputs[a].0 as int][(
            #[trigger] lists[a]@[k]).doc as int] is Some ==> from.contains((a, k)),
    decreases n,
{
    if n <= 0 {
        Seq::empty()
    } else {
        let before = every_joined_posting_is_whole(inputs, lists, remaps, n - 1);
        let remap = remaps[inputs[n - 1].0 as int];
        let places = every_kept_posting_is_whole(lists[n - 1]@, remap);
        let from = before + places.map_values(|k: int| (n - 1, k));
        let m = before.len() as int;
        let all = joined(inputs, lists, remaps, n);
        assert forall|i: int| 0 <= i < from.len() implies 0 <= (#[trigger] from[i]).0 < n && 0 <= from[i].1
            < lists[from[i].0]@.len() by {
            if i < m {
                assert(from[i] == before[i]);
            } else {
                assert(from[i] == (n - 1, places[i - m]));
            }
        }
        assert forall|i: int| 0 <= i < from.len() implies ({
            let posting = lists[(#[trigger] from[i]).0]@[from[i].1];
            &&& remaps[inputs[from[i].0].0 as int][posting.doc as int] == Some(FtsDocId { id: all[i].0 })
            &&& all[i].1 == posting.tf
            &&& all[i].2 == posting.positions@
        }) by {
            if i < m {
                assert(from[i] == before[i]);
                assert(all[i] == joined(inputs, lists, remaps, n - 1)[i]);
            } else {
                assert(from[i] == (n - 1, places[i - m]));
                assert(all[i] == survivors(lists[n - 1]@, remap)[i - m]);
            }
        }
        assert forall|i: int, j: int| 0 <= i < j < from.len() implies (#[trigger] from[i]).0 < (#[trigger] from[j]).0
            || from[i].0 == from[j].0 && from[i].1 < from[j].1 by {
            if i < m {
                assert(from[i] == before[i]);
            } else {
                assert(from[i] == (n - 1, places[i - m]));
            }
            if j < m {
                assert(from[j] == before[j]);
            } else {
                assert(from[j] == (n - 1, places[j - m]));
            }
        }
        assert forall|a: int, k: int|
            0 <= a < n && 0 <= k < lists[a]@.len() && remaps[inputs[a].0 as int][(
            #[trigger] lists[a]@[k]).doc as int] is Some implies from.contains((a, k)) by {
            if a < n - 1 {
                assert(before.contains((a, k)));
                let i = choose|i: int| 0 <= i < before.len() && before[i] == (a, k);
                assert(from[i] == (a, k));
            } else {
                assert(places.contains(k));
                let i = choose|i: int| 0 <= i < places.len() && places[i] == k;
                assert(from[m + i] == (a, k));
            }
        }
        from
    }
}

/// A run has a value for each position: the first position itself, and then by how much each next
/// one is further on.
pub proof fn a_run_holds_every_position(positions: Seq<u32>, k: int)
    requires
        forall|i: int, j: int| 0 <= i < j < positions.len() ==> #[trigger] positions[i] < #[trigger] positions[j],
        0 <= k < positions.len(),
    ensures
        run_values(positions).len() == positions.len(),
        k == 0 ==> run_values(positions)[k] == positions[k],
        k > 0 ==> positions[k - 1] + run_values(positions)[k] == positions[k],
{
    if k > 0 {
        assert(positions[k - 1] < positions[k]);
    }
}

/// The first values of a list add up as each is added to those before it.
pub proof fn values_add_up(values: Seq<u32>, n: int)
    requires
        0 <= n <= values.len(),
    ensures
        sum_of(values, n) == values.take(n).fold_left(0int, |sum: int, v: u32| sum + v),
    decreases n,
{
    let added = |sum: int, v: u32| sum + v;
    if n > 0 {
        values_add_up(values, n - 1);
        assert(values.take(n).drop_last() =~= values.take(n - 1));
        assert(values.take(n).fold_left(0int, added) == added(
            values.take(n - 1).fold_left(0int, added),
            values[n - 1],
        ));
    }
}

/// Runs stand back to back, one for each posting in turn.
pub proof fn runs_stand_back_to_back(kept: Seq<Kept>)
    ensures
        all_runs(kept) == kept.map_values(|p: Kept| run_values(p.2)).flatten(),
    decreases kept.len(),
{
    let runs = kept.map_values(|p: Kept| run_values(p.2));
    runs.lemma_flatten_and_flatten_alt_are_equivalent();
    if kept.len() > 0 {
        let fewer = kept.drop_last();
        runs_stand_back_to_back(fewer);
        let before = fewer.map_values(|p: Kept| run_values(p.2));
        before.lemma_flatten_and_flatten_alt_are_equivalent();
        assert(runs.drop_last() =~= before);
        assert(runs.flatten_alt() == before.flatten_alt() + runs.last());
    }
}

/// Laid out together, postings have as many run values as positions.
pub proof fn runs_are_as_long_as_positions(kept: Seq<Kept>)
    ensures
        all_runs(kept).len() == kept.fold_left(0nat, |n: nat, p: Kept| n + p.2.len()),
    decreases kept.len(),
{
    let longer = |n: nat, p: Kept| n + p.2.len();
    if kept.len() > 0 {
        runs_are_as_long_as_positions(kept.drop_last());
        assert(kept.fold_left(0nat, longer) == longer(kept.drop_last().fold_left(0nat, longer), kept.last()));
    }
}

/// A run starts after as many values as the postings before it have positions.
pub proof fn a_run_starts_after_those_before(kept: Seq<Kept>, k: int)
    requires
        0 <= k <= kept.len(),
    ensures
        run_start(kept, k) == kept.take(k).fold_left(0nat, |n: nat, p: Kept| n + p.2.len()),
{
    runs_are_as_long_as_positions(kept.take(k));
}

/// What an encoder is handed of a term's postings: `perm` takes each of them once, by document and
/// those of one document as they arrived; pair by pair it has the document and the frequency, and
/// from each start on, the positions as first position and gaps.
pub proof fn an_arrangement_lays_out_every_posting(
    kept: Seq<Kept>,
    pairs: Seq<(u32, u32)>,
    starts: Seq<usize>,
    values: Seq<u32>,
) -> (perm: Seq<int>)
    requires
        is_arrangement(kept, pairs, starts),
        values == all_runs(kept),
    ensures
        perm.len() == kept.len(),
        pairs.len() == kept.len(),
        starts.len() == kept.len(),
        values.len() == kept.fold_left(0nat, |n: nat, p: Kept| n + p.2.len()),
        forall|k: int| 0 <= k < perm.len() ==> 0 <= #[trigger] perm[k] < kept.len(),
        forall|i: int| 0 <= i < kept.len() ==> perm.contains(i),
        forall|j: int, k: int|
            0 <= j < k < perm.len() ==> kept[#[trigger] perm[j]].0 < kept[#[trigger] perm[k]].0
                || kept[perm[j]].0 == kept[perm[k]].0 && perm[j] < perm[k],
        forall|k: int|
            0 <= k < perm.len() ==> (#[trigger] pairs[k]).0 == kept[perm[k]].0 && pairs[k].1 == kept[perm[k]].1,
        forall|k: int|
            0 <= k < perm.len() ==> (#[trigger] starts[k]) + kept[perm[k]].2.len() <= values.len(),
        forall|k: int, i: int|
            0 <= k < perm.len() && 0 <= i < kept[perm[k]].2.len() ==> #[trigger] values[starts[k] + i] == if i
                == 0 {
                kept[perm[k]].2[0]
            } else {
                (kept[perm[k]].2[i] - kept[perm[k]].2[i - 1]) as u32
            },
{
    let perm = choose|perm: Seq<int>| #[trigger] arranged_by(kept, perm, pairs, starts) && by_document(kept, perm);
    assert(arranged_by(kept, perm, pairs, starts));
    runs_are_as_long_as_positions(kept);
    assert forall|i: int| 0 <= i < kept.len() implies perm.contains(i) by {
        let k = lemma_permutation_hits(perm, i);
    }
    assert forall|j: int, k: int| 0 <= j < k < perm.len() implies kept[#[trigger] perm[j]].0 < kept[
    #[trigger] perm[k]].0 || kept[perm[j]].0 == kept[perm[k]].0 && perm[j] < perm[k] by {
        assert(goes_before(kept, perm[j], perm[k]));
    }
    assert forall|k: int| 0 <= k < perm.len() implies (#[trigger] starts[k]) + kept[perm[k]].2.len()
        <= values.len() by {
        runs_stand_at_their_starts(kept, perm[k]);
    }
    assert forall|k: int, i: int|
        0 <= k < perm.len() && 0 <= i < kept[perm[k]].2.len() implies #[trigger] values[starts[k] + i] == if i
        == 0 {
        kept[perm[k]].2[0]
    } else {
        (kept[perm[k]].2[i] - kept[perm[k]].2[i - 1]) as u32
    } by {
        runs_stand_at_their_starts(kept, perm[k]);
        let start = run_start(kept, perm[k]);
        assert(starts[k] == start);
        let run = values.subrange(start, start + kept[perm[k]].2.len());
        assert(run[i] == values[start + i]);
        assert(run == run_values(kept[perm[k]].2));
    }
    perm
}

/// A term counts with its postings, their positions and, where its documents did not arrive
/// ascending, as sorted.
pub proof fn a_term_is_counted(kept: Seq<Kept>)
    ensures
        tally_of(kept).postings == kept.len(),
        tally_of(kept).run_values == kept.fold_left(0nat, |n: nat, p: Kept| n + p.2.len()),
        tally_of(kept).sorted_terms <= 1,
        tally_of(kept).sorted_terms == 0 <==> forall|i: int, j: int|
            0 <= i < j < kept.len() ==> (#[trigger] kept[i]).0 < (#[trigger] kept[j]).0,
        tally_of(kept).sorted_postings == tally_of(kept).sorted_terms * kept.len(),
{
    runs_are_as_long_as_positions(kept);
    assert(tally_of(kept).sorted_postings == tally_of(kept).sorted_terms * kept.len()) by (nonlinear_arith)
        requires
            tally_of(kept).sorted_terms == 0 && tally_of(kept).sorted_postings == 0
                || tally_of(kept).sorted_terms == 1 && tally_of(kept).sorted_postings == kept.len(),
    ;
}

/// The counts of encodings are those of each, added up.
pub proof fn encodings_are_counted<T>(steps: Seq<Step<T>>)
    ensures
        tally(steps).postings == steps.fold_left(0nat, |n: nat, s: Step<T>| n + tally_of(s.0).postings),
        tally(steps).run_values == steps.fold_left(0nat, |n: nat, s: Step<T>| n + tally_of(s.0).run_values),
        tally(steps).sorted_terms == steps.fold_left(0nat, |n: nat, s: Step<T>| n + tally_of(s.0).sorted_terms),
        tally(steps).sorted_postings == steps.fold_left(
            0nat,
            |n: nat, s: Step<T>| n + tally_of(s.0).sorted_postings,
        ),
    decreases steps.len(),
{
    if steps.len() > 0 {
        encodings_are_counted(steps.drop_last());
        let a = |n: nat, s: Step<T>| n + tally_of(s.0).postings;
        let b = |n: nat, s: Step<T>| n + tally_of(s.0).run_values;
        let c = |n: nat, s: Step<T>| n + tally_of(s.0).sorted_terms;
        let d = |n: nat, s: Step<T>| n + tally_of(s.0).sorted_postings;
        assert(steps.fold_left(0nat, a) == a(steps.drop_last().fold_left(0nat, a), steps.last()));
        assert(steps.fold_left(0nat, b) == b(steps.drop_last().fold_left(0nat, b), steps.last()));
        assert(steps.fold_left(0nat, c) == c(steps.drop_last().fold_left(0nat, c), steps.last()));
        assert(steps.fold_left(0nat, d) == d(steps.drop_last().fold_left(0nat, d), steps.last()));
    }
}

/// The counts of a merge's terms are those of each, added up.
pub proof fn terms_are_counted<T>(records: Seq<Record<T>>)
    ensures
        tally_all(records).postings == records.fold_left(0nat, |n: nat, r: Record<T>| n + r.kept.len()),
        tally_all(records).run_values == records.fold_left(
            0nat,
            |n: nat, r: Record<T>| n + tally_of(r.kept).run_values,
        ),
        tally_all(records).sorted_terms == records.fold_left(
            0nat,
            |n: nat, r: Record<T>| n + tally_of(r.kept).sorted_terms,
        ),
        tally_all(records).sorted_postings == records.fold_left(
            0nat,
            |n: nat, r: Record<T>| n + tally_of(r.kept).sorted_postings,
        ),
        total_inputs(records) == records.fold_left(0nat, |n: nat, r: Record<T>| n + r.term.1.len()),
    decreases records.len(),
{
    if records.len() > 0 {
        terms_are_counted(records.drop_last());
        let a = |n: nat, r: Record<T>| n + r.kept.len();
        let b = |n: nat, r: Record<T>| n + tally_of(r.kept).run_values;
        let c = |n: nat, r: Record<T>| n + tally_of(r.kept).sorted_terms;
        let d = |n: nat, r: Record<T>| n + tally_of(r.kept).sorted_postings;
        let e = |n: nat, r: Record<T>| n + r.term.1.len();
        let fewer = records.drop_last();
        assert(records.fold_left(0nat, a) == a(fewer.fold_left(0nat, a), records.last()));
        assert(records.fold_left(0nat, b) == b(fewer.fold_left(0nat, b), records.last()));
        assert(records.fold_left(0nat, c) == c(fewer.fold_left(0nat, c), records.last()));
        assert(records.fold_left(0nat, d) == d(fewer.fold_left(0nat, d), records.last()));
        assert(records.fold_left(0nat, e) == e(fewer.fold_left(0nat, e), records.last()));
    }
}

/// A count is what it counts, up to the most that 64 bits hold.
pub proof fn counts_stop_at_the_most(n: nat)
    ensures
        n <= 0xffff_ffff_ffff_ffff ==> capped(n) == n,
        n > 0xffff_ffff_ffff_ffff ==> capped(n) == 0xffff_ffff_ffff_ffff,
{
}

/// What a merge counted, where 64 bits hold it: the postings that stay, the inputs of every term,
/// the positions, and the terms and postings that had to be sorted.
pub proof fn a_merge_counts_all_its_terms<T>(counts: MergeCounts, records: Seq<Record<T>>)
    requires
        counts.count(records),
    ensures
        ({
            let n = records.fold_left(0nat, |n: nat, r: Record<T>| n + r.kept.len());
            n <= 0xffff_ffff_ffff_ffff ==> counts.postings == n
        }),
        ({
            let n = records.fold_left(0nat, |n: nat, r: Record<T>| n + r.term.1.len());
            n <= 0xffff_ffff_ffff_ffff ==> counts.term_inputs == n
        }),
        ({
            let n = records.fold_left(0nat, |n: nat, r: Record<T>| n + tally_of(r.kept).run_values);
            n <= 0xffff_ffff_ffff_ffff ==> counts.run_values == n
        }),
        ({
            let n = records.fold_left(0nat, |n: nat, r: Record<T>| n + tally_of(r.kept).sorted_terms);
            n <= 0xffff_ffff_ffff_ffff ==> counts.sorted_terms == n
        }),
        ({
            let n = records.fold_left(0nat, |n: nat, r: Record<T>| n + tally_of(r.kept).sorted_postings);
            n <= 0xffff_ffff_ffff_ffff ==> counts.sorted_postings == n
        }),
{
    terms_are_counted(records);
}

/// What a merge counted that 64 bits do not hold is counted as the most that they do.
pub proof fn a_merge_counts_no_further_than_it_can<T>(counts: MergeCounts, records: Seq<Record<T>>)
    requires
        counts.count(records),
    ensures
        tally_all(records).postings > 0xffff_ffff_ffff_ffff ==> counts.postings == 0xffff_ffff_ffff_ffff,
        tally_all(records).run_values > 0xffff_ffff_ffff_ffff ==> counts.run_values == 0xffff_ffff_ffff_ffff,
        tally_all(records).sorted_terms > 0xffff_ffff_ffff_ffff ==> counts.sorted_terms == 0xffff_ffff_ffff_ffff,
        tally_all(records).sorted_postings > 0xffff_ffff_ffff_ffff ==> counts.sorted_postings
            == 0xffff_ffff_ffff_ffff,
        total_inputs(records) > 0xffff_ffff_ffff_ffff ==> counts.term_inputs == 0xffff_ffff_ffff_ffff,
{
}

/// A worker's counts are those of what it merged, where 64 bits hold them.
pub proof fn a_worker_counts_what_it_merged(counts: TermCounts, t: Tally)
    requires
        counts.count(t),
    ensures
        t.postings <= 0xffff_ffff_ffff_ffff ==> counts.postings == t.postings,
        t.run_values <= 0xffff_ffff_ffff_ffff ==> counts.run_values == t.run_values,
        t.sorted_terms <= 0xffff_ffff_ffff_ffff ==> counts.sorted_terms == t.sorted_terms,
        t.sorted_postings <= 0xffff_ffff_ffff_ffff ==> counts.sorted_postings == t.sorted_postings,
{
}

/// Counts of two lots are added count by count, and nothing counted adds nothing.
pub proof fn counts_are_added_one_by_one(a: Tally, b: Tally)
    ensures
        a.plus(b).postings == a.postings + b.postings,
        a.plus(b).run_values == a.run_values + b.run_values,
        a.plus(b).sorted_terms == a.sorted_terms + b.sorted_terms,
        a.plus(b).sorted_postings == a.sorted_postings + b.sorted_postings,
        a.plus(no_tally()) == a,
{
}

} // verus!
