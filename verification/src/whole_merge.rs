//! What a merge of one column does with everything it reads, from the dictionaries to the sink.
use crate::batch::BatchLimits;
use crate::counts::MergeCounts;
use crate::dictionary::{ascending_terms, Entry, FstValue, FtsError, FtsReader, Posting, TermChunks};
use crate::errors::{is_read_error, BuildError};
use crate::kept_laws::{an_arrangement_lays_out_every_posting, every_joined_posting_is_whole};
use crate::merge_job::{
    all_indexed, job, outputs, readers_of, reads_postings, share, terms_of, writes, written, Job,
    Record, SortedInput, Step, TermRuns,
};
use crate::merge_laws::{
    all_ascending, merge_holds_every_term, merge_holds_only_terms, merged_terms_ascend,
};
use crate::part_laws::{a_chunk_is_asked_for_from_the_last_term, a_sink_goes_from_write_to_write};
use crate::term_merge::{is_merge, MergedTerm};
use crate::term_order::term_lt;
use crate::term_walk::{dictionary_of, fails_with, read_failed, within_limits};
use crate::term_work::{all_runs, is_arrangement, placeable, FtsDocId, Kept};
use vstd::prelude::*;
use vstd::utf8::{encode_utf8, valid_utf8};

verus! {

/// Which records have an output: the places of those, in turn.
proof fn lemma_places_of_outputs<T>(records: Seq<Record<T>>) -> (places: Seq<int>)
    ensures
        places.len() == outputs(records).len(),
        forall|i: int, j: int| 0 <= i < j < places.len() ==> #[trigger] places[i] < #[trigger] places[j],
        forall|i: int| 0 <= i < places.len() ==> 0 <= #[trigger] places[i] < records.len(),
        forall|i: int|
            0 <= i < places.len() ==> records[#[trigger] places[i]].output is Some && outputs(records)[i] == (
                records[places[i]].term.0,
                records[places[i]].output->0,
            ),
        forall|k: int| 0 <= k < records.len() && (#[trigger] records[k]).output is Some ==> places.contains(k),
    decreases records.len(),
{
    if records.len() == 0 {
        Seq::empty()
    } else {
        let fewer = records.drop_last();
        let before = lemma_places_of_outputs(fewer);
        let last = records.len() - 1;
        let places = if records[last].output is Some {
            before.push(last)
        } else {
            before
        };
        assert forall|i: int| 0 <= i < places.len() implies 0 <= #[trigger] places[i] < records.len() by {
            if i < before.len() {
                assert(places[i] == before[i]);
            }
        }
        assert forall|i: int, j: int| 0 <= i < j < places.len() implies #[trigger] places[i]
            < #[trigger] places[j] by {
            assert(places[i] == before[i]);
            if j < before.len() {
                assert(places[j] == before[j]);
            }
        }
        assert forall|i: int| 0 <= i < places.len() implies records[#[trigger] places[i]].output is Some
            && outputs(records)[i] == (records[places[i]].term.0, records[places[i]].output->0) by {
            if i < before.len() {
                assert(places[i] == before[i]);
                assert(fewer[before[i]] == records[places[i]]);
            }
        }
        assert forall|k: int| 0 <= k < records.len() && (#[trigger] records[k]).output
            is Some implies places.contains(k) by {
            if k < last {
                assert(fewer[k] == records[k]);
                let i = choose|i: int| 0 <= i < before.len() && before[i] == k;
                assert(places[i] == k);
            } else {
                assert(places[before.len() as int] == k);
            }
        }
        places
    }
}

impl<R: FtsReader, S, N: Fn() -> S, E> Job<R, S, N, E> {
    /// The lists that were read of a term, each with the slice that the term was handed over as, and
    /// where in them the postings that stay stand, in turn.
    proof fn lemma_lists_of<'a>(&self, term: MergedTerm, kept: Seq<Kept>) -> (r: (
        Seq<Vec<Posting>>,
        Seq<&'a [u8]>,
        Seq<(int, int)>,
    ))
        requires
            self.stays(term, kept),
            forall|k: int| 0 <= k < term.1.len() ==> (#[trigger] term.1[k]).0 < self.inputs.len(),
        ensures
            ({
                let (lists, slices, from) = r;
                &&& lists.len() == term.1.len()
                &&& slices.len() == term.1.len()
                &&& from.len() == kept.len()
                &&& forall|k: int|
                    0 <= k < lists.len() ==> (#[trigger] slices[k])@ == term.0 && call_ensures(
                        R::postings_in,
                        (&self.inputs[term.1[k].0 as int].fts->0, self.column_id, slices[k], term.1[k].1),
                        Ok(lists[k]),
                    )
                &&& forall|i: int|
                    0 <= i < from.len() ==> 0 <= (#[trigger] from[i]).0 < lists.len() && 0 <= from[i].1
                        < lists[from[i].0]@.len()
                &&& forall|i: int|
                    0 <= i < from.len() ==> {
                        let (a, k) = #[trigger] from[i];
                        let posting = lists[a]@[k];
                        &&& self.inputs[term.1[a].0 as int].remap@[posting.doc as int] == Some(
                            FtsDocId { id: kept[i].0 },
                        )
                        &&& kept[i].1 == posting.tf
                        &&& kept[i].2 == posting.positions@
                    }
                &&& forall|i: int, j: int|
                    0 <= i < j < from.len() ==> (#[trigger] from[i]).0 < (#[trigger] from[j]).0 || from[i].0
                        == from[j].0 && from[i].1 < from[j].1
                &&& forall|a: int, k: int|
                    0 <= a < lists.len() && 0 <= k < lists[a]@.len() && self.inputs[term.1[a].0 as int].remap@[(
                    #[trigger] lists[a]@[k]).doc as int] is Some ==> from.contains((a, k))
            }),
    {
        let lists = choose|lists: Seq<Vec<Posting>>| #[trigger]
            self.lists_read(term, lists) && kept == self.kept(term, lists);
        let slices = Seq::new(
            lists.len(),
            |k: int| choose|t: &'a [u8]|
                t@ == term.0 && #[trigger] call_ensures(
                    R::postings_in,
                    (self.fts(term.1[k].0 as int), self.column_id, t, term.1[k].1),
                    Ok(lists[k]),
                ),
        );
        assert forall|k: int| 0 <= k < lists.len() implies (#[trigger] slices[k])@ == term.0 && call_ensures(
            R::postings_in,
            (&self.inputs[term.1[k].0 as int].fts->0, self.column_id, slices[k], term.1[k].1),
            Ok(lists[k]),
        ) by {
            assert(reads_postings(
                self.fts(term.1[k].0 as int),
                self.column_id,
                term.0,
                term.1[k].1,
                Ok(lists[k]),
            ));
        }
        let from = every_joined_posting_is_whole(term.1, lists, self.remaps(), lists.len() as int);
        assert forall|i: int| 0 <= i < from.len() implies ({
            let (a, k) = #[trigger] from[i];
            let posting = lists[a]@[k];
            &&& self.inputs[term.1[a].0 as int].remap@[posting.doc as int] == Some(FtsDocId { id: kept[i].0 })
            &&& kept[i].1 == posting.tf
            &&& kept[i].2 == posting.positions@
        }) by {
            assert(term.1[from[i].0].0 < self.inputs.len());
        }
        assert forall|a: int, k: int|
            0 <= a < lists.len() && 0 <= k < lists[a]@.len() && self.inputs[term.1[a].0 as int].remap@[(
            #[trigger] lists[a]@[k]).doc as int] is Some implies from.contains((a, k)) by {
            assert(term.1[a].0 < self.inputs.len());
            assert(self.remaps()[term.1[a].0 as int] == self.inputs[term.1[a].0 as int].remap@);
        }
        (lists, slices, from)
    }

    /// A term leaves the output exactly where every posting that its inputs hand over for it is of a
    /// document that is dropped.
    pub proof fn a_term_leaves_where_no_document_stays<'a, T>(&self, record: Record<T>) -> (r: (
        Seq<Vec<Posting>>,
        Seq<&'a [u8]>,
    )) where E: Fn(S, &[(u32, u32)], TermRuns<'_>) -> (S, Result<T, BuildError>)
        requires
            self.is_record(record),
            forall|k: int|
                0 <= k < record.term.1.len() ==> (#[trigger] record.term.1[k]).0 < self.inputs.len(),
        ensures
            ({
                let (lists, slices) = r;
                let term = record.term;
                &&& lists.len() == term.1.len()
                &&& slices.len() == term.1.len()
                &&& forall|k: int|
                    0 <= k < lists.len() ==> (#[trigger] slices[k])@ == term.0 && call_ensures(
                        R::postings_in,
                        (&self.inputs[term.1[k].0 as int].fts->0, self.column_id, slices[k], term.1[k].1),
                        Ok(lists[k]),
                    )
                &&& record.output is None <==> forall|a: int, k: int|
                    0 <= a < lists.len() && 0 <= k < lists[a]@.len()
                        ==> self.inputs[term.1[a].0 as int].remap@[(#[trigger] lists[a]@[k]).doc as int] is None
            }),
    {
        let (lists, slices, from) = self.lemma_lists_of(record.term, record.kept);
        if record.kept.len() > 0 {
            let (a, k) = from[0];
            assert(lists[a]@[k] == lists[a]@[k]);
        }
        (lists, slices)
    }

    /// What an encoder is handed of a term that has an output: `lists` is what the term's inputs handed
    /// over, and `order` takes each posting of them whose document stays, once, by output document and
    /// then as they were read. Pair by pair the encoder has the output document and the frequency of
    /// each, and from each start on all of its positions, as the first and then the gaps.
    pub proof fn a_term_is_encoded_whole<'a, T>(&self, record: Record<T>, out: T) -> (r: (
        Seq<Vec<Posting>>,
        Seq<&'a [u8]>,
        Seq<(int, int)>,
        &'a [(u32, u32)],
        &'a [u32],
        &'a [usize],
        (S, S),
    )) where E: Fn(S, &[(u32, u32)], TermRuns<'_>) -> (S, Result<T, BuildError>)
        requires
            self.is_record(record),
            record.output == Some(out),
            forall|k: int|
                0 <= k < record.term.1.len() ==> (#[trigger] record.term.1[k]).0 < self.inputs.len(),
        ensures
            ({
                let (lists, slices, order, pairs, values, starts, states) = r;
                let term = record.term;
                &&& self.encode.ensures(
                    (states.0, pairs, TermRuns::Values { values, starts }),
                    (states.1, Ok(out)),
                )
                &&& lists.len() == term.1.len()
                &&& slices.len() == term.1.len()
                &&& forall|k: int|
                    0 <= k < lists.len() ==> (#[trigger] slices[k])@ == term.0 && call_ensures(
                        R::postings_in,
                        (&self.inputs[term.1[k].0 as int].fts->0, self.column_id, slices[k], term.1[k].1),
                        Ok(lists[k]),
                    )
                &&& order.len() > 0
                &&& pairs@.len() == order.len()
                &&& starts@.len() == order.len()
                &&& forall|a: int, k: int|
                    0 <= a < lists.len() && 0 <= k < lists[a]@.len() && self.inputs[term.1[a].0 as int].remap@[(
                    #[trigger] lists[a]@[k]).doc as int] is Some ==> order.contains((a, k))
                &&& forall|i: int|
                    0 <= i < order.len() ==> {
                        let (a, k) = #[trigger] order[i];
                        let posting = lists[a]@[k];
                        &&& 0 <= a < lists.len()
                        &&& 0 <= k < lists[a]@.len()
                        &&& self.inputs[term.1[a].0 as int].remap@[posting.doc as int] == Some(
                            FtsDocId { id: pairs@[i].0 },
                        )
                        &&& pairs@[i].1 == posting.tf
                        &&& starts@[i] + posting.positions@.len() <= values@.len()
                    }
                &&& forall|i: int, p: int|
                    0 <= i < order.len() && 0 <= p < lists[order[i].0]@[order[i].1].positions@.len()
                        ==> #[trigger] values@[starts@[i] + p] == if p == 0 {
                        lists[order[i].0]@[order[i].1].positions@[0]
                    } else {
                        (lists[order[i].0]@[order[i].1].positions@[p]
                            - lists[order[i].0]@[order[i].1].positions@[p - 1]) as u32
                    }
                &&& forall|i: int, j: int|
                    0 <= i < j < order.len() ==> pairs@[i].0 < pairs@[j].0 || pairs@[i].0 == pairs@[j].0 && (
                    (#[trigger] order[i]).0 < (#[trigger] order[j]).0 || order[i].0 == order[j].0 && order[i].1
                        < order[j].1)
            }),
    {
        let term = record.term;
        let kept = record.kept;
        let (lists, slices, from) = self.lemma_lists_of(term, kept);
        let (s, after) = choose|s: S, after: S|
            self.reachable::<T>(s) && #[trigger] self.encodes(s, kept, after, Ok(out));
        assert(self.encodes(s, kept, after, Ok(out)));
        let (pairs, values, starts) = choose|pairs: &'a [(u32, u32)], values: &'a [u32], starts: &'a [usize]|
            is_arrangement(kept, pairs@, starts@) && values@ == all_runs(kept)
                && #[trigger] self.encode.ensures(
                (s, pairs, TermRuns::Values { values, starts }),
                (after, Ok(out)),
            );
        let perm = an_arrangement_lays_out_every_posting(kept, pairs@, starts@, values@);
        let order = Seq::new(perm.len(), |i: int| from[perm[i]]);
        assert forall|a: int, k: int|
            0 <= a < lists.len() && 0 <= k < lists[a]@.len() && self.inputs[term.1[a].0 as int].remap@[(
            #[trigger] lists[a]@[k]).doc as int] is Some implies order.contains((a, k)) by {
            assert(from.contains((a, k)));
            let h = choose|h: int| 0 <= h < from.len() && from[h] == (a, k);
            assert(perm.contains(h));
            let i = choose|i: int| 0 <= i < perm.len() && perm[i] == h;
            assert(order[i] == (a, k));
        }
        assert forall|i: int| 0 <= i < order.len() implies ({
            let (a, k) = #[trigger] order[i];
            let posting = lists[a]@[k];
            &&& 0 <= a < lists.len()
            &&& 0 <= k < lists[a]@.len()
            &&& self.inputs[term.1[a].0 as int].remap@[posting.doc as int] == Some(FtsDocId { id: pairs@[i].0 })
            &&& pairs@[i].1 == posting.tf
            &&& starts@[i] + posting.positions@.len() <= values@.len()
        }) by {
            assert(0 <= perm[i] < kept.len());
            assert(order[i] == from[perm[i]]);
            assert(pairs@[i].0 == kept[perm[i]].0);
            assert(starts@[i] + kept[perm[i]].2.len() <= values@.len());
        }
        assert forall|i: int, p: int|
            0 <= i < order.len() && 0 <= p < lists[order[i].0]@[order[i].1].positions@.len() implies #[trigger] values@[
        starts@[i] + p] == if p == 0 {
            lists[order[i].0]@[order[i].1].positions@[0]
        } else {
            (lists[order[i].0]@[order[i].1].positions@[p] - lists[order[i].0]@[order[i].1].positions@[p - 1]) as u32
        } by {
            assert(0 <= perm[i] < kept.len());
            assert(order[i] == from[perm[i]]);
            assert(kept[perm[i]].2 == lists[order[i].0]@[order[i].1].positions@);
        }
        assert forall|i: int, j: int| 0 <= i < j < order.len() implies pairs@[i].0 < pairs@[j].0 || pairs@[i].0
            == pairs@[j].0 && ((#[trigger] order[i]).0 < (#[trigger] order[j]).0 || order[i].0 == order[j].0
            && order[i].1 < order[j].1) by {
            assert(order[i] == from[perm[i]] && order[j] == from[perm[j]]);
            assert(kept[perm[i]].0 < kept[perm[j]].0 || kept[perm[i]].0 == kept[perm[j]].0 && perm[i] < perm[j]);
            assert(pairs@[i].0 == kept[perm[i]].0 && pairs@[j].0 == kept[perm[j]].0);
        }
        (lists, slices, order, pairs, values, starts, (s, after))
    }

    /// What a merge of a column comes to that succeeds. `records` has a term for every entry of every
    /// dictionary, with the input that holds it and its value, and no other; the terms ascend, each is
    /// text, and each comes out as what its inputs hand over for it makes it. `places` are the terms
    /// with an output; each is written under its text, in turn, to the sink that the write before
    /// left.
    pub proof fn a_merge_writes_every_term<'a, T, W, F: Fn(W, &str, T) -> (W, Result<(), BuildError>)>(
        &self,
        dicts: Seq<Seq<Entry>>,
        limits: BatchLimits,
        write: F,
        from: W,
        to: W,
        handed: Seq<S>,
        counts: MergeCounts,
    ) -> (r: (Seq<Record<T>>, Seq<int>, Seq<W>, Seq<&'a str>)) where
        E: Fn(S, &[(u32, u32)], TermRuns<'_>) -> (S, Result<T, BuildError>),

        requires
            self.dictionaries(dicts),
            dicts.len() <= usize::MAX,
            self.completed::<T, W, F>(limits, write, from, to, handed, counts),
        ensures
            ({
                let (records, places, sinks, texts) = r;
                &&& forall|a: int, b: int|
                    0 <= a < b < records.len() ==> term_lt(
                        (#[trigger] records[a]).term.0,
                        (#[trigger] records[b]).term.0,
                    )
                &&& forall|i: int, k: int|
                    0 <= i < dicts.len() && 0 <= k < dicts[i].len() ==> exists|j: int|
                        0 <= j < records.len() && (#[trigger] records[j]).term.0 == (
                        #[trigger] dicts[i][k]).0 && records[j].term.1.contains((i as usize, dicts[i][k].1))
                &&& forall|j: int|
                    0 <= j < records.len() ==> self.is_record(#[trigger] records[j]) && valid_utf8(
                        records[j].term.0,
                    ) && records[j].term.1.len() > 0
                &&& forall|j: int, h: int|
                    0 <= j < records.len() && 0 <= h < records[j].term.1.len() ==> {
                        let (i, value) = #[trigger] records[j].term.1[h];
                        i < self.inputs.len() && dicts[i as int].contains((records[j].term.0, value))
                    }
                &&& forall|j: int, g: int, h: int|
                    0 <= j < records.len() && 0 <= g < h < records[j].term.1.len() ==> (
                    #[trigger] records[j].term.1[g]).0 < (#[trigger] records[j].term.1[h]).0
                &&& forall|i: int, j: int| 0 <= i < j < places.len() ==> #[trigger] places[i] < #[trigger] places[j]
                &&& forall|i: int|
                    0 <= i < places.len() ==> 0 <= #[trigger] places[i] < records.len()
                        && records[places[i]].output is Some
                &&& forall|j: int|
                    0 <= j < records.len() && (#[trigger] records[j]).output is Some ==> places.contains(j)
                &&& sinks.len() == places.len() + 1
                &&& texts.len() == places.len()
                &&& sinks[0] == from
                &&& sinks[places.len() as int] == to
                &&& forall|i: int|
                    0 <= i < places.len() ==> encode_utf8((#[trigger] texts[i])@) == records[places[i]].term.0
                        && write.ensures(
                        (sinks[i], texts[i], records[places[i]].output->0),
                        (sinks[i + 1], Ok(())),
                    )
                &&& counts.count(records)
                &&& self.hands_back(limits, records, handed)
            }),
    {
        let records = choose|records: Seq<Record<T>>|
            self.whole(terms_of(records)) && #[trigger] self.wrote(records, write, from, to)
                && self.hands_back(limits, records, handed) && counts.count(records);
        let merged = terms_of(records);
        assert(is_merge(dicts, merged));
        assert(all_ascending(dicts)) by {
            assert forall|i: int| 0 <= i < dicts.len() implies ascending_terms(
                #[trigger] dicts[i],
            ) by {
                assert(dictionary_of(
                    readers_of(self.inputs)[i],
                    self.column_id,
                    dicts[i],
                ));
            }
        }
        assert forall|a: int, b: int| 0 <= a < b < records.len() implies term_lt(
            (#[trigger] records[a]).term.0,
            (#[trigger] records[b]).term.0,
        ) by {
            merged_terms_ascend(dicts, merged, a, b);
        }
        assert forall|i: int, k: int| 0 <= i < dicts.len() && 0 <= k < dicts[i].len() implies exists|j: int|
            0 <= j < records.len() && (#[trigger] records[j]).term.0 == (#[trigger] dicts[i][k]).0
                && records[j].term.1.contains((i as usize, dicts[i][k].1)) by {
            merge_holds_every_term(dicts, merged, i, k);
            let j = choose|j: int|
                0 <= j < merged.len() && (#[trigger] merged[j]).0 == dicts[i][k].0 && merged[j].1.contains(
                    (i as usize, dicts[i][k].1),
                );
            assert(records[j].term == merged[j]);
        }
        assert forall|j: int| 0 <= j < records.len() implies self.is_record(#[trigger] records[j]) && valid_utf8(
            records[j].term.0,
        ) && records[j].term.1.len() > 0 by {
            merge_holds_only_terms(dicts, merged, j);
            assert(merged[j] == records[j].term);
        }
        assert forall|j: int, h: int| 0 <= j < records.len() && 0 <= h < records[j].term.1.len() implies ({
            let (i, value) = #[trigger] records[j].term.1[h];
            i < self.inputs.len() && dicts[i as int].contains((records[j].term.0, value))
        }) by {
            merge_holds_only_terms(dicts, merged, j);
            assert(merged[j] == records[j].term);
            assert(merged[j].1[h] == records[j].term.1[h]);
        }
        assert forall|j: int, g: int, h: int|
            0 <= j < records.len() && 0 <= g < h < records[j].term.1.len() implies (
        #[trigger] records[j].term.1[g]).0 < (#[trigger] records[j].term.1[h]).0 by {
            merge_holds_only_terms(dicts, merged, j);
            assert(merged[j] == records[j].term);
            assert(merged[j].1[g].0 < merged[j].1[h].0);
        }
        let places = lemma_places_of_outputs(records);
        let (sinks, texts) = a_sink_goes_from_write_to_write(write, outputs(records), from, to);
        assert forall|i: int| 0 <= i < places.len() implies encode_utf8((#[trigger] texts[i])@)
            == records[places[i]].term.0 && write.ensures(
            (sinks[i], texts[i], records[places[i]].output->0),
            (sinks[i + 1], Ok(())),
        ) by {
            assert(outputs(records)[i] == (records[places[i]].term.0, records[places[i]].output->0));
        }
        (records, places, sinks, texts)
    }

    /// The states that a merge hands back: those given come first, in their places, and after them new
    /// ones. Each record is one worker's, and a worker's state goes from one encoding of what it took
    /// to the next.
    pub proof fn states_go_from_encoding_to_encoding<T>(
        &self,
        limits: BatchLimits,
        records: Seq<Record<T>>,
        handed: Seq<S>,
        w: int,
    ) -> (r: (Seq<int>, Seq<S>)) where E: Fn(S, &[(u32, u32)], TermRuns<'_>) -> (S, Result<T, BuildError>)
        requires
            self.hands_back(limits, records, handed),
            0 <= w < handed.len(),
        ensures
            ({
                let (who, through) = r;
                let steps = share(records, who, w);
                &&& who.len() == records.len()
                &&& forall|k: int| 0 <= k < who.len() ==> 0 <= #[trigger] who[k] < handed.len()
                &&& through.len() == steps.len() + 1
                &&& w < self.given.len() ==> through[0] == self.given[w]
                &&& w >= self.given.len() ==> self.new_state.ensures((), through[0])
                &&& through[steps.len() as int] == handed[w]
                &&& forall|k: int|
                    0 <= k < steps.len() ==> self.encodes(
                        through[k],
                        (#[trigger] steps[k]).0,
                        through[k + 1],
                        Ok(steps[k].1),
                    )
            }),
    {
        let (first, who) = choose|first: Seq<S>, who: Seq<int>|
            self.starts_with(first) && #[trigger] self.worked(first, records, who, handed);
        assert(self.worked(first, records, who, handed));
        assert(self.leads(first[w], share(records, who, w), handed[w]));
        let through = choose|through: Seq<S>| #[trigger]
            self.leads_through(share(records, who, w), through) && through.first() == first[w]
                && through.last() == handed[w];
        (who, through)
    }

    /// A state that a term can be encoded with comes of one that was given or newly made, by encodings
    /// one after another.
    pub proof fn a_state_comes_of_encodings<T>(&self, s: S) -> (r: (Seq<Step<T>>, Seq<S>)) where
        E: Fn(S, &[(u32, u32)], TermRuns<'_>) -> (S, Result<T, BuildError>),

        requires
            self.reachable::<T>(s),
        ensures
            ({
                let (steps, through) = r;
                &&& through.len() == steps.len() + 1
                &&& (exists|w: int| 0 <= w < self.given.len() && #[trigger] self.given[w] == through[0])
                    || self.new_state.ensures((), through[0])
                &&& through[steps.len() as int] == s
                &&& forall|k: int|
                    0 <= k < steps.len() ==> self.encodes(
                        through[k],
                        (#[trigger] steps[k]).0,
                        through[k + 1],
                        Ok(steps[k].1),
                    )
            }),
    {
        let (first, steps) = choose|first: S, steps: Seq<Step<T>>|
            self.is_first(first) && #[trigger] self.leads(first, steps, s);
        assert(self.leads(first, steps, s));
        let through = choose|through: Seq<S>| #[trigger]
            self.leads_through(steps, through) && through.first() == first && through.last() == s;
        if self.given.contains(first) {
            let w = choose|w: int| 0 <= w < self.given.len() && self.given[w] == first;
            assert(self.given[w] == through[0]);
        }
        (steps, through)
    }

    /// What a term can come to is what a record of it has.
    pub proof fn a_term_comes_to_what_a_record_has<T>(&self, term: MergedTerm, output: Option<T>) -> (record: Record<
        T,
    >) where E: Fn(S, &[(u32, u32)], TermRuns<'_>) -> (S, Result<T, BuildError>)
        requires
            self.merges_to(term, output),
        ensures
            record.term == term,
            record.output == output,
            self.is_record(record),
    {
        let kept = choose|kept: Seq<Kept>| #[trigger] self.stays(term, kept) && self.comes_out(kept, output);
        Record { term, kept, output }
    }

    /// An encoding is one call of the encoder, with what an arrangement has of the postings.
    pub proof fn an_encoding_is_one_call<'a, T>(
        &self,
        state: S,
        kept: Seq<Kept>,
        after: S,
        result: Result<T, BuildError>,
    ) -> (r: (&'a [(u32, u32)], &'a [u32], &'a [usize], Seq<int>)) where
        E: Fn(S, &[(u32, u32)], TermRuns<'_>) -> (S, Result<T, BuildError>),

        requires
            self.encodes(state, kept, after, result),
        ensures
            ({
                let (pairs, values, starts, perm) = r;
                &&& self.encode.ensures(
                    (state, pairs, TermRuns::Values { values, starts }),
                    (after, result),
                )
                &&& perm.len() == kept.len()
                &&& pairs@.len() == kept.len()
                &&& starts@.len() == kept.len()
                &&& forall|i: int| 0 <= i < kept.len() ==> perm.contains(i)
                &&& forall|k: int|
                    0 <= k < perm.len() ==> 0 <= #[trigger] perm[k] < kept.len() && pairs@[k].0 == kept[perm[k]].0
                        && pairs@[k].1 == kept[perm[k]].1
                &&& forall|j: int, k: int|
                    0 <= j < k < perm.len() ==> kept[#[trigger] perm[j]].0 < kept[#[trigger] perm[k]].0
                        || kept[perm[j]].0 == kept[perm[k]].0 && perm[j] < perm[k]
                &&& forall|k: int, i: int|
                    0 <= k < perm.len() && 0 <= i < kept[perm[k]].2.len() ==> #[trigger] values@[starts@[k] + i]
                        == if i == 0 {
                        kept[perm[k]].2[0]
                    } else {
                        (kept[perm[k]].2[i] - kept[perm[k]].2[i - 1]) as u32
                    }
            }),
    {
        let (pairs, values, starts) = choose|pairs: &'a [(u32, u32)], values: &'a [u32], starts: &'a [usize]|
            is_arrangement(kept, pairs@, starts@) && values@ == all_runs(kept)
                && #[trigger] self.encode.ensures(
                (state, pairs, TermRuns::Values { values, starts }),
                (after, result),
            );
        let perm = an_arrangement_lays_out_every_posting(kept, pairs@, starts@, values@);
        assert forall|k: int| 0 <= k < perm.len() implies 0 <= #[trigger] perm[k] < kept.len() && pairs@[k].0
            == kept[perm[k]].0 && pairs@[k].1 == kept[perm[k]].1 by {
            assert(pairs@[k].0 == kept[perm[k]].0);
        }
        (pairs, values, starts, perm)
    }

    /// A dictionary that could not be read failed as one of its inputs' reads did: the bytes could not be
    /// had, or the next terms from some term on. The error tells of that read.
    pub proof fn an_unread_dictionary_is_told_of<'a>(&self, error: BuildError) -> (r: (
        int,
        FtsError,
        Option<(bytes::Bytes, &'a Vec<u8>)>,
    ))
        requires
            self.walk_fails(error),
        ensures
            ({
                let (i, e, from) = r;
                let fts = &self.inputs[i].fts->0;
                &&& 0 <= i < self.inputs.len()
                &&& error matches BuildError::Io(message) && message@ == "fts sorted merge: "@ + e.message@
                &&& match from {
                    None => call_ensures(R::dict_bytes, (fts,), Err::<bytes::Bytes, FtsError>(e)),
                    Some((bytes, resume)) => call_ensures(
                        R::column_terms_from,
                        (fts, &bytes, self.column_id, resume, 4096usize),
                        Err::<Vec<(Vec<u8>, FstValue)>, FtsError>(e),
                    ),
                }
            }),
    {
        let i = choose|i: int|
            0 <= i < self.inputs.len() && read_failed(#[trigger] self.fts(i), self.column_id, error);
        let fts = self.fts(i);
        assert(read_failed(fts, self.column_id, error));
        let e = choose|e: FtsError| #[trigger]
            is_read_error(e, error) && fails_with(fts, self.column_id, e);
        if call_ensures(R::dict_bytes, (fts,), Err::<bytes::Bytes, FtsError>(e)) {
            (i, e, None)
        } else {
            let walk = choose|walk: TermChunks<'_, R>|
                walk.fts() == fts && walk.column_id() == self.column_id && #[trigger] walk.reads_next(Err(e));
            let resume = a_chunk_is_asked_for_from_the_last_term(walk, Err(e));
            (i, e, Some((walk.fst_bytes(), resume)))
        }
    }

    /// A term that could not be merged failed as one call did: a read of its postings from one of its
    /// inputs, those before it having given `lists`, and the error tells of that read, or the one
    /// encoding of those that stay, whose error it is.
    pub proof fn a_failed_term_is_told_of<'a, T>(&self, term: MergedTerm, error: BuildError) -> (r: Result<
        (FtsError, Seq<&'a [u8]>, Seq<Vec<Posting>>),
        (S, &'a [(u32, u32)], &'a [u32], &'a [usize], S, Seq<Kept>),
    >) where E: Fn(S, &[(u32, u32)], TermRuns<'_>) -> (S, Result<T, BuildError>)
        requires
            self.fails::<T>(term, error),
        ensures
            match r {
                Ok((e, slices, lists)) => {
                    let k = lists.len() as int;
                    &&& k < term.1.len()
                    &&& slices.len() == k + 1
                    &&& slices[k]@ == term.0
                    &&& call_ensures(
                        R::postings_in,
                        (&self.inputs[term.1[k].0 as int].fts->0, self.column_id, slices[k], term.1[k].1),
                        Err::<Vec<Posting>, FtsError>(e),
                    )
                    &&& error matches BuildError::Io(message) && message@ == "fts sorted merge: "@ + e.message@
                    &&& forall|j: int|
                        0 <= j < k ==> slices[j]@ == term.0 && call_ensures(
                            R::postings_in,
                            (&self.inputs[term.1[j].0 as int].fts->0, self.column_id, slices[j], term.1[j].1),
                            Ok::<Vec<Posting>, FtsError>(#[trigger] lists[j]),
                        )
                },
                Err((state, pairs, values, starts, after, kept)) => {
                    &&& self.encode.ensures(
                        (state, pairs, TermRuns::Values { values, starts }),
                        (after, Err::<T, BuildError>(error)),
                    )
                    &&& self.stays(term, kept)
                    &&& pairs@.len() == kept.len() > 0
                },
            },
    {
        if self.read_fails(term, error) {
            let (k, e) = choose|k: int, e: FtsError| #[trigger]
                is_read_error(e, error) && #[trigger] self.read_fails_at(term, k, e);
            assert(self.read_fails_at(term, k, e));
            assert(self.reads(term, k, Err(e)));
            let lists = Seq::new(
                k as nat,
                |j: int| choose|list: Vec<Posting>| self.reads(term, j, Ok(list)),
            );
            let outs = Seq::new(
                (k + 1) as nat,
                |j: int|
                    if j < k {
                        Ok::<Vec<Posting>, FtsError>(lists[j])
                    } else {
                        Err(e)
                    },
            );
            let slices = Seq::new(
                (k + 1) as nat,
                |j: int| choose|t: &'a [u8]|
                    t@ == term.0 && #[trigger] call_ensures(
                        R::postings_in,
                        (self.fts(term.1[j].0 as int), self.column_id, t, term.1[j].1),
                        outs[j],
                    ),
            );
            assert forall|j: int| 0 <= j <= k implies (#[trigger] slices[j])@ == term.0 && call_ensures(
                R::postings_in,
                (&self.inputs[term.1[j].0 as int].fts->0, self.column_id, slices[j], term.1[j].1),
                outs[j],
            ) by {
                if j < k {
                    assert(self.can_read(term, j));
                    assert(self.reads(term, j, Ok(lists[j])));
                }
                assert(reads_postings(
                    self.fts(term.1[j].0 as int),
                    self.column_id,
                    term.0,
                    term.1[j].1,
                    outs[j],
                ));
            }
            assert forall|j: int| 0 <= j < k implies slices[j]@ == term.0 && call_ensures(
                R::postings_in,
                (&self.inputs[term.1[j].0 as int].fts->0, self.column_id, slices[j], term.1[j].1),
                Ok::<Vec<Posting>, FtsError>(#[trigger] lists[j]),
            ) by {
                assert(slices[j]@ == term.0);
                assert(outs[j] == Ok::<Vec<Posting>, FtsError>(lists[j]));
            }
            assert(slices[k]@ == term.0);
            assert(outs[k] == Err::<Vec<Posting>, FtsError>(e));
            Ok((e, slices, lists))
        } else {
            let (kept, s, after) = choose|kept: Seq<Kept>, s: S, after: S|
                self.stays(term, kept) && kept.len() > 0 && self.reachable::<T>(s)
                    && #[trigger] self.encodes::<T>(s, kept, after, Err(error));
            let (pairs, values, starts, perm) = self.an_encoding_is_one_call::<T>(s, kept, after, Err(error));
            Err((s, pairs, values, starts, after, kept))
        }
    }

    /// A term is refused because it is not text, and then nothing is written of it, or because the write
    /// of its output under its text failed, with that error.
    pub proof fn a_refused_term_is_told_of<'a, T, W, F: Fn(W, &str, T) -> (W, Result<(), BuildError>)>(
        &self,
        term: MergedTerm,
        write: F,
        at: W,
        to: W,
        error: BuildError,
    ) -> (r: Option<(&'a str, T)>) where E: Fn(S, &[(u32, u32)], TermRuns<'_>) -> (S, Result<T, BuildError>)
        requires
            self.refuses::<T, W, F>(term, write, at, to, error),
        ensures
            match r {
                None => {
                    &&& !valid_utf8(term.0)
                    &&& to == at
                    &&& error matches BuildError::Io(message) && message@ == "fts sorted merge: non-utf8 term"@
                },
                Some((text, out)) => {
                    &&& encode_utf8(text@) == term.0
                    &&& write.ensures((at, text, out), (to, Err(error)))
                    &&& self.merges_to(term, Some(out))
                },
            },
    {
        if valid_utf8(term.0) {
            let out = choose|out: T| #[trigger]
                self.merges_to(term, Some(out)) && writes(
                    write,
                    term.0,
                    out,
                    at,
                    to,
                    Err(error),
                );
            let text = choose|text: &'a str|
                encode_utf8(text@) == term.0 && #[trigger] write.ensures((at, text, out), (to, Err(error)));
            Some((text, out))
        } else {
            None
        }
    }

    /// A batch that failed had a term that could not be merged, the first of them, and then none of it was
    /// written; or all of it can be merged, to `outs`, and the terms of `done` were written, up to one that
    /// was refused.
    pub proof fn a_batch_is_written_only_once_all_of_it_is_merged<
        T,
        W,
        F: Fn(W, &str, T) -> (W, Result<(), BuildError>),
    >(&self, terms: Seq<MergedTerm>, write: F, from: W, to: W, error: BuildError) -> (r: (
        Seq<Option<T>>,
        Seq<Record<T>>,
        W,
    )) where E: Fn(S, &[(u32, u32)], TermRuns<'_>) -> (S, Result<T, BuildError>)
        requires
            self.batch_fails::<T, W, F>(terms, write, from, to, error),
        ensures
            ({
                let (outs, done, at) = r;
                &&& outs.len() <= terms.len()
                &&& forall|j: int| 0 <= j < outs.len() ==> self.merges_to(terms[j], #[trigger] outs[j])
                &&& outs.len() < terms.len() ==> to == from && self.fails::<T>(terms[outs.len() as int], error)
                &&& outs.len() == terms.len() ==> {
                    &&& done.len() < terms.len()
                    &&& forall|j: int|
                        0 <= j < done.len() ==> (#[trigger] done[j]).term == terms[j] && valid_utf8(terms[j].0)
                            && self.is_record(done[j])
                    &&& written(write, outputs(done), from, at)
                    &&& self.refuses::<T, W, F>(terms[done.len() as int], write, at, to, error)
                }
            }),
    {
        if to == from && self.merge_stops::<T>(terms, error) {
            let k = choose|k: int| 0 <= k < terms.len() && #[trigger] self.fails_first::<T>(terms, k, error);
            assert(self.fails_first::<T>(terms, k, error));
            let outs = Seq::new(
                k as nat,
                |j: int| choose|output: Option<T>| self.merges_to(terms[j], output),
            );
            assert forall|j: int| 0 <= j < outs.len() implies self.merges_to(terms[j], #[trigger] outs[j]) by {
                assert(self.can_merge::<T>(terms[j]));
            }
            (outs, Seq::empty(), from)
        } else {
            let outs = Seq::new(
                terms.len(),
                |j: int| choose|output: Option<T>| self.merges_to(terms[j], output),
            );
            assert forall|j: int| 0 <= j < outs.len() implies self.merges_to(terms[j], #[trigger] outs[j]) by {
                assert(self.can_merge::<T>(terms[j]));
            }
            let (done, at) = choose|done: Seq<Record<T>>, at: W| #[trigger]
                self.wrote(done, write, from, at) && self.refused_after::<T, W, F>(
                    terms,
                    done,
                    write,
                    at,
                    to,
                    error,
                );
            assert(self.wrote(done, write, from, at));
            assert forall|j: int| 0 <= j < done.len() implies (#[trigger] done[j]).term == terms[j] && valid_utf8(
                terms[j].0,
            ) && self.is_record(done[j]) by {
                assert(terms_of(done)[j] == terms.take(done.len() as int)[j]);
            }
            (outs, done, at)
        }
    }

    /// What a merge that failed did, and that it failed as a whole batch: after the batches of `done` a
    /// dictionary could not be read, or the batch `next`, which keeps to the limits, failed.
    pub proof fn a_merge_fails_with_a_batch_within_its_limits<
        T,
        W,
        F: Fn(W, &str, T) -> (W, Result<(), BuildError>),
    >(&self, limits: BatchLimits, write: F, from: W, to: W, error: BuildError) -> (r: (
        Seq<Record<T>>,
        Seq<MergedTerm>,
        W,
    )) where E: Fn(S, &[(u32, u32)], TermRuns<'_>) -> (S, Result<T, BuildError>)
        requires
            self.broke_off::<T, W, F>(limits, write, from, to, error),
        ensures
            ({
                let (done, next, at) = r;
                &&& self.begins(terms_of(done) + next)
                &&& forall|j: int|
                    0 <= j < done.len() ==> self.is_record(#[trigger] done[j]) && valid_utf8(done[j].term.0)
                &&& written(write, outputs(done), from, at)
                &&& {
                    ||| to == at && self.walk_fails(error)
                    ||| within_limits(next, limits) && self.batch_fails::<T, W, F>(next, write, at, to, error)
                }
            }),
    {
        let (before, next, at) = choose|before: Seq<MergedTerm>, next: Seq<MergedTerm>, at: W| #[trigger]
            self.begins(before + next) && #[trigger] self.wrote_all::<T, W, F>(before, write, from, at)
                && self.ends_in::<T, W, F>(limits, next, write, at, to, error);
        let done = choose|records: Seq<Record<T>>|
            terms_of(records) == before && #[trigger] self.wrote(records, write, from, at);
        (done, next, at)
    }

    /// What a merge that failed did before: `records` are the first terms, all merged and written, with
    /// the sink then at `at`. Then a dictionary could not be read, or a term of the batch `next` could not
    /// be merged, after those that can come out as `outs`, and none of the batch was written, or the next
    /// term was refused.
    pub proof fn a_failed_merge_stops_where_it_failed<T, W, F: Fn(W, &str, T) -> (W, Result<(), BuildError>)>(
        &self,
        limits: BatchLimits,
        write: F,
        from: W,
        to: W,
        error: BuildError,
    ) -> (r: (Seq<Record<T>>, Seq<MergedTerm>, W, Seq<Option<T>>)) where
        E: Fn(S, &[(u32, u32)], TermRuns<'_>) -> (S, Result<T, BuildError>),

        requires
            self.broke_off::<T, W, F>(limits, write, from, to, error),
        ensures
            ({
                let (records, next, at, outs) = r;
                &&& self.begins(terms_of(records) + next)
                &&& forall|j: int|
                    0 <= j < records.len() ==> self.is_record(#[trigger] records[j]) && valid_utf8(
                        records[j].term.0,
                    )
                &&& written(write, outputs(records), from, at)
                &&& {
                    ||| to == at && self.walk_fails(error)
                    ||| to == at && outs.len() < next.len() && self.fails::<T>(next[outs.len() as int], error) && (
                    forall|j: int| 0 <= j < outs.len() ==> self.merges_to(next[j], #[trigger] outs[j]))
                    ||| 0 < next.len() && self.refuses::<T, W, F>(next[0], write, at, to, error)
                }
            }),
    {
        let (done, next, at) = choose|done: Seq<MergedTerm>, next: Seq<MergedTerm>, at: W| #[trigger]
            self.begins(done + next) && #[trigger] self.wrote_all::<T, W, F>(done, write, from, at)
                && self.ends_in::<T, W, F>(limits, next, write, at, to, error);
        let records = choose|records: Seq<Record<T>>|
            terms_of(records) == done && #[trigger] self.wrote(records, write, from, at);
        assert(self.wrote(records, write, from, at));
        if to == at && self.walk_fails(error) {
            (records, next, at, Seq::empty())
        } else if to == at && self.merge_stops::<T>(next, error) {
            let k = choose|k: int| 0 <= k < next.len() && #[trigger] self.fails_first::<T>(next, k, error);
            let outs = Seq::new(
                k as nat,
                |j: int| choose|output: Option<T>| self.merges_to(next[j], output),
            );
            assert(self.fails_first::<T>(next, k, error));
            assert forall|j: int| 0 <= j < outs.len() implies self.merges_to(next[j], #[trigger] outs[j]) by {
                assert(self.can_merge::<T>(next[j]));
            }
            (records, next, at, outs)
        } else {
            let (more, mid) = choose|more: Seq<Record<T>>, mid: W| #[trigger]
                self.wrote(more, write, at, mid) && self.refused_after::<T, W, F>(
                    next,
                    more,
                    write,
                    mid,
                    to,
                    error,
                );
            assert(self.wrote(more, write, at, mid));
            self.lemma_wrote_join(records, more, write, from, at, mid);
            let all = records + more;
            let rest = next.skip(more.len() as int);
            assert(terms_of(all) =~= done + terms_of(more));
            assert(terms_of(all) + rest =~= done + next);
            assert(rest[0] == next[more.len() as int]);
            (all, rest, mid, Seq::empty())
        }
    }

    /// A column can be merged where its dictionaries are in term order and what reads of their entries
    /// give has documents that the input's remap has an entry for, and positions that go up.
    pub proof fn a_sorted_column_can_be_merged(&self, dicts: Seq<Seq<Entry>>)
        requires
            self.dictionaries(dicts),
            forall|i: int, k: int, list: Vec<Posting>, t: &[u8]|
                0 <= i < dicts.len() && 0 <= k < dicts[i].len() && t@ == dicts[i][k].0 && #[trigger] call_ensures(
                    R::postings_in,
                    (&self.inputs[i].fts->0, self.column_id, t, (#[trigger] dicts[i][k]).1),
                    Ok::<Vec<Posting>, FtsError>(list),
                ) ==> {
                    &&& forall|p: int|
                        0 <= p < list@.len() ==> (#[trigger] list@[p]).doc < self.inputs[i].remap@.len()
                    &&& forall|p: int, a: int, b: int|
                        0 <= p < list@.len() && 0 <= a < b < list@[p].positions@.len()
                            ==> #[trigger] list@[p].positions@[a] < #[trigger] list@[p].positions@[b]
                },
        ensures
            self.readable(),
    {
        assert forall|i: int, k: int, list: Vec<Posting>|
            0 <= i < dicts.len() && 0 <= k < dicts[i].len() && #[trigger] reads_postings(
                self.fts(i),
                self.column_id,
                dicts[i][k].0,
                dicts[i][k].1,
                Ok(list),
            ) implies placeable(list@, self.inputs[i].remap@) by {
            let t = choose|t: &[u8]|
                t@ == dicts[i][k].0 && #[trigger] call_ensures(
                    R::postings_in,
                    (self.fts(i), self.column_id, t, dicts[i][k].1),
                    Ok::<Vec<Posting>, FtsError>(list),
                );
            assert(t@ == dicts[i][k].0 && call_ensures(
                R::postings_in,
                (&self.inputs[i].fts->0, self.column_id, t, dicts[i][k].1),
                Ok::<Vec<Posting>, FtsError>(list),
            ));
        }
        assert(self.places_entries(dicts));
    }

    /// A merge's calls are allowed where states can be made and whatever there is can be encoded.
    pub proof fn a_merge_calls_what_it_was_given<T>(&self) where
        E: Fn(S, &[(u32, u32)], TermRuns<'_>) -> (S, Result<T, BuildError>),

        ensures
            self.callable::<T>() <==> self.new_state.requires(()) && forall|
                s: S,
                pairs: &[(u32, u32)],
                runs: TermRuns<'_>,
            | #[trigger] self.encode.requires((s, pairs, runs)),
    {
    }
}

/// What a merge is given it works on: every input with its index and its remap, the column, the states
/// and the two functions.
pub proof fn a_merge_works_on_what_it_was_given<R: FtsReader, S, N: Fn() -> S, E>(
    inputs: Seq<SortedInput<R>>,
    column_id: u32,
    given: Seq<S>,
    new_state: N,
    encode: E,
    i: int,
)
    requires
        0 <= i < inputs.len(),
    ensures
        ({
            let merge = job(inputs, column_id, given, new_state, encode);
            &&& merge.inputs == inputs
            &&& merge.column_id == column_id
            &&& merge.given == given
            &&& merge.new_state == new_state
            &&& merge.encode == encode
            &&& merge.fts(i) == &inputs[i].fts->0
            &&& merge.remaps().len() == inputs.len()
            &&& merge.remaps()[i] == inputs[i].remap@
            &&& readers_of(inputs).len() == inputs.len()
            &&& readers_of(inputs)[i] == &inputs[i].fts->0
            &&& all_indexed(inputs) ==> inputs[i].fts is Some
        }),
        (forall|k: int| 0 <= k < inputs.len() ==> (#[trigger] inputs[k]).fts is Some) ==> all_indexed(inputs),
{
}

} // verus!
