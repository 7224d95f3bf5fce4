//! What the parts of a merge come to, each said on its own.
use crate::batch::{hinted_bytes, most_tasks, tasks_in, total_hinted, Batch, BatchLimits};
use crate::dictionary::{
    ascending_terms, chunk_from, entry_views, is_chunk, is_dictionary, reads_terms, Entry, FstValue,
    FtsError, FtsReader, Posting, TermChunks,
};
use crate::errors::{is_non_utf8_error, is_read_error, BuildError};
use crate::merge_job::{
    by_one, outputs, share, steps_of, terms_of, writes, writes_through, written, Record,
};
use crate::sorted_merge::{at_once, is_cut, is_run};
use crate::term_heap::{head_le, Head};
use crate::term_merge::{
    after_terms, at_first, exhausted, first_terms, has_head, holders, is_next, moved_on, next_term,
    nth_term, stands_at, within, MergedTerm,
};
use crate::term_order::term_lt;
use crate::term_walk::{
    are_dictionaries, at_hand, dictionary_of, goes_on, inputs_below, inputs_of, lemma_next_exists,
    within_limits,
};
use crate::term_work::{placeable, FtsDocId};
use vstd::prelude::*;
use vstd::utf8::encode_utf8;

verus! {

/// One term comes before another exactly where they agree up to a place at which it ends and the
/// other goes on, or its byte is the smaller.
pub proof fn terms_stand_byte_by_byte(a: Seq<u8>, b: Seq<u8>)
    ensures
        term_lt(a, b) <==> exists|n: int|
            0 <= n <= a.len() && n < b.len() && #[trigger] a.take(n) == b.take(n) && (n == a.len() || a[n]
                < b[n]),
    decreases a.len(),
{
    if a.len() > 0 && b.len() > 0 && a[0] == b[0] {
        let (c, d) = (a.drop_first(), b.drop_first());
        terms_stand_byte_by_byte(c, d);
        if term_lt(a, b) {
            let n = choose|n: int|
                0 <= n <= c.len() && n < d.len() && #[trigger] c.take(n) == d.take(n) && (n == c.len() || c[n]
                    < d[n]);
            assert forall|i: int| 0 <= i < n + 1 implies a[i] == b[i] by {
                if i > 0 {
                    assert(c.take(n)[i - 1] == d.take(n)[i - 1]);
                }
            }
            assert(a.take(n + 1) =~= b.take(n + 1));
        }
        if exists|n: int|
            0 <= n <= a.len() && n < b.len() && #[trigger] a.take(n) == b.take(n) && (n == a.len() || a[n]
                < b[n]) {
            let n = choose|n: int|
                0 <= n <= a.len() && n < b.len() && #[trigger] a.take(n) == b.take(n) && (n == a.len() || a[n]
                    < b[n]);
            assert(n > 0);
            assert forall|i: int| 0 <= i < n - 1 implies c[i] == d[i] by {
                assert(a.take(n)[i + 1] == b.take(n)[i + 1]);
            }
            assert(c.take(n - 1) =~= d.take(n - 1));
        }
    } else if b.len() > 0 {
        assert(a.take(0) =~= b.take(0));
        if exists|n: int|
            0 <= n <= a.len() && n < b.len() && #[trigger] a.take(n) == b.take(n) && (n == a.len() || a[n]
                < b[n]) {
            let n = choose|n: int|
                0 <= n <= a.len() && n < b.len() && #[trigger] a.take(n) == b.take(n) && (n == a.len() || a[n]
                    < b[n]);
            if n > 0 {
                assert(a.take(n)[0] == b.take(n)[0]);
            }
        }
    }
}

/// Of two heads of inputs the one with the earlier term goes first, and of one term that of the
/// earlier input.
pub proof fn heads_go_by_term_and_input(a: Head, b: Head)
    ensures
        head_le(a, b) <==> term_lt(a.0, b.0) || a.0 == b.0 && a.1 <= b.1,
{
}

/// What a list of entries holds is each term's bytes and its value, in turn.
pub proof fn entries_are_held_in_turn(entries: Seq<(Vec<u8>, FstValue)>, i: int)
    requires
        0 <= i < entries.len(),
    ensures
        entry_views(entries).len() == entries.len(),
        entry_views(entries)[i].0 == entries[i].0@,
        entry_views(entries)[i].1 == entries[i].1,
{
}

/// All of a list that passes is all of it.
proof fn lemma_all_pass(dict: Seq<Entry>, pass: spec_fn(Entry) -> bool)
    requires
        forall|i: int| 0 <= i < dict.len() ==> pass(#[trigger] dict[i]),
    ensures
        dict.filter(pass) == dict,
    decreases dict.len(),
{
    reveal(Seq::filter);
    if dict.len() > 0 {
        lemma_all_pass(dict.drop_last(), pass);
        assert(dict.drop_last().push(dict.last()) =~= dict);
        assert(pass(dict[dict.len() - 1]));
    }
}

/// What passes of a list of which nothing does is nothing.
proof fn lemma_none_pass(dict: Seq<Entry>, pass: spec_fn(Entry) -> bool)
    requires
        forall|i: int| 0 <= i < dict.len() ==> !pass(#[trigger] dict[i]),
    ensures
        dict.filter(pass) == Seq::<Entry>::empty(),
    decreases dict.len(),
{
    reveal(Seq::filter);
    if dict.len() > 0 {
        lemma_none_pass(dict.drop_last(), pass);
        assert(!pass(dict[dict.len() - 1]));
    }
}

/// A chunk is of the entries that do not come before where it starts as many as were asked for, or all
/// there are.
pub proof fn a_chunk_is_the_first_entries_from_its_start(
    dict: Seq<Entry>,
    resume: Seq<u8>,
    limit: nat,
    chunk: Seq<Entry>,
)
    requires
        is_chunk(dict, resume, limit as int, chunk),
    ensures
        ({
            let rest = dict.filter(|e: Entry| !term_lt(e.0, resume));
            &&& rest.len() <= limit ==> chunk == rest
            &&& rest.len() > limit ==> chunk == rest.take(limit as int)
        }),
{
    let from = choose|from: int| #[trigger] chunk_from(dict, resume, limit as int, chunk, from);
    assert(chunk_from(dict, resume, limit as int, chunk, from));
    let pass = |e: Entry| !term_lt(e.0, resume);
    let (before, rest) = (dict.take(from), dict.skip(from));
    assert forall|i: int| 0 <= i < before.len() implies !pass(#[trigger] before[i]) by {
        assert(before[i] == dict[i]);
        assert(term_lt(dict[i].0, resume));
    }
    assert forall|i: int| 0 <= i < rest.len() implies pass(#[trigger] rest[i]) by {
        assert(rest[i] == dict[from + i]);
        assert(!term_lt(dict[from + i].0, resume));
    }
    lemma_none_pass(before, pass);
    lemma_all_pass(rest, pass);
    assert(dict =~= before + rest);
    Seq::filter_distributes_over_add(before, rest, pass);
    assert(dict.filter(pass) =~= rest);
    if rest.len() <= limit {
        assert(chunk =~= rest);
    } else {
        assert(chunk =~= rest.take(limit as int));
    }
}

/// The first entries of a dictionary in term order from a place on, at which those before end, are a
/// chunk of it.
pub proof fn entries_from_a_place_on_are_a_chunk(
    dict: Seq<Entry>,
    resume: Seq<u8>,
    limit: nat,
    chunk: Seq<Entry>,
    from: int,
)
    requires
        0 <= from <= dict.len(),
        forall|i: int| 0 <= i < dict.len() ==> (term_lt(#[trigger] dict[i].0, resume) <==> i < from),
        chunk.len() == if from + limit <= dict.len() {
            limit as int
        } else {
            dict.len() - from
        },
        forall|i: int| 0 <= i < chunk.len() ==> #[trigger] chunk[i] == dict[from + i],
    ensures
        is_chunk(dict, resume, limit as int, chunk),
{
    let end = if from + limit <= dict.len() {
        from + limit
    } else {
        dict.len() as int
    };
    assert(chunk =~= dict.subrange(from, end));
    assert(chunk_from(dict, resume, limit as int, chunk, from));
}

/// What it takes to be the dictionaries of a column: in each input's, terms stand in term order, and
/// whatever a read of the input gives is a chunk of it.
pub proof fn dictionaries_are_what_reads_give<R: FtsReader>(
    readers: Seq<&R>,
    column_id: u32,
    dicts: Seq<Seq<Entry>>,
)
    ensures
        are_dictionaries(readers, column_id, dicts) <==> {
            &&& dicts.len() == readers.len()
            &&& forall|i: int, a: int, b: int|
                0 <= i < dicts.len() && 0 <= a < b < dicts[i].len() ==> term_lt(
                    (#[trigger] dicts[i][a]).0,
                    (#[trigger] dicts[i][b]).0,
                )
            &&& forall|
                i: int,
                bytes: bytes::Bytes,
                resume: &Vec<u8>,
                limit: usize,
                chunk: Vec<(Vec<u8>, FstValue)>,
            |
                0 <= i < dicts.len() && #[trigger] call_ensures(
                    R::dict_bytes,
                    (readers[i],),
                    Ok::<bytes::Bytes, FtsError>(bytes),
                ) && #[trigger] call_ensures(
                    R::column_terms_from,
                    (readers[i], &bytes, column_id, resume, limit),
                    Ok::<Vec<(Vec<u8>, FstValue)>, FtsError>(chunk),
                ) ==> is_chunk(dicts[i], resume@, limit as int, entry_views(chunk@))
        },
{
    if are_dictionaries(readers, column_id, dicts) {
        assert forall|i: int, a: int, b: int|
            0 <= i < dicts.len() && 0 <= a < b < dicts[i].len() implies term_lt(
            (#[trigger] dicts[i][a]).0,
            (#[trigger] dicts[i][b]).0,
        ) by {
            assert(dictionary_of(readers[i], column_id, dicts[i]));
        }
        assert forall|
            i: int,
            bytes: bytes::Bytes,
            resume: &Vec<u8>,
            limit: usize,
            chunk: Vec<(Vec<u8>, FstValue)>,
        |
            0 <= i < dicts.len() && #[trigger] call_ensures(
                R::dict_bytes,
                (readers[i],),
                Ok::<bytes::Bytes, FtsError>(bytes),
            ) && #[trigger] call_ensures(
                R::column_terms_from,
                (readers[i], &bytes, column_id, resume, limit),
                Ok::<Vec<(Vec<u8>, FstValue)>, FtsError>(chunk),
            ) implies is_chunk(dicts[i], resume@, limit as int, entry_views(chunk@)) by {
            assert(dictionary_of(readers[i], column_id, dicts[i]));
            assert(is_dictionary(readers[i], &bytes, column_id, dicts[i]));
            assert(reads_terms(readers[i], &bytes, column_id, resume, limit, Ok(chunk)));
        }
    }
    if dicts.len() == readers.len() && (forall|i: int, a: int, b: int|
        0 <= i < dicts.len() && 0 <= a < b < dicts[i].len() ==> term_lt(
            (#[trigger] dicts[i][a]).0,
            (#[trigger] dicts[i][b]).0,
        )) && (forall|
        i: int,
        bytes: bytes::Bytes,
        resume: &Vec<u8>,
        limit: usize,
        chunk: Vec<(Vec<u8>, FstValue)>,
    |
        0 <= i < dicts.len() && #[trigger] call_ensures(
            R::dict_bytes,
            (readers[i],),
            Ok::<bytes::Bytes, FtsError>(bytes),
        ) && #[trigger] call_ensures(
            R::column_terms_from,
            (readers[i], &bytes, column_id, resume, limit),
            Ok::<Vec<(Vec<u8>, FstValue)>, FtsError>(chunk),
        ) ==> is_chunk(dicts[i], resume@, limit as int, entry_views(chunk@))) {
        assert forall|i: int| 0 <= i < dicts.len() implies ascending_terms(dicts[i])
            && #[trigger] dictionary_of(readers[i], column_id, dicts[i]) by {
            assert forall|a: int, b: int| 0 <= a < b < dicts[i].len() implies term_lt(
                #[trigger] dicts[i][a].0,
                #[trigger] dicts[i][b].0,
            ) by {
                let (x, y) = (dicts[i][a], dicts[i][b]);
                assert(term_lt(x.0, y.0));
            }
        }
    }
}

/// A chunk is asked for from the last term of the chunk before, at most 4096 terms of it.
pub proof fn a_chunk_is_asked_for_from_the_last_term<R: FtsReader>(
    walk: TermChunks<'_, R>,
    out: Result<Vec<(Vec<u8>, FstValue)>, FtsError>,
) -> (resume: &Vec<u8>)
    requires
        walk.reads_next(out),
    ensures
        resume@ == walk.resume(),
        call_ensures(
            R::column_terms_from,
            (walk.fts(), &walk.fst_bytes(), walk.column_id(), resume, 4096usize),
            out,
        ),
{
    choose|resume: &Vec<u8>|
        resume@ == walk.resume() && #[trigger] reads_terms(
            walk.fts(),
            &walk.fst_bytes(),
            walk.column_id(),
            resume,
            4096usize,
            out,
        )
}

/// Of a chunk that was read all is still to be handed out but the term handed out last, where it
/// starts with that; one shorter than 4096 entries is the last.
pub proof fn a_chunk_is_handed_out_once<R: FtsReader>(
    before: TermChunks<'_, R>,
    chunk: Seq<Entry>,
    after: TermChunks<'_, R>,
)
    requires
        before.fed(chunk, &after),
    ensures
        after.fts() == before.fts(),
        after.fst_bytes() == before.fst_bytes(),
        after.column_id() == before.column_id(),
        before.started() && chunk.len() > 0 && chunk[0].0 == before.resume() ==> after.pending() == chunk.skip(1),
        !before.started() || chunk.len() == 0 || chunk[0].0 != before.resume() ==> after.pending() == chunk,
        chunk.len() > 0 ==> after.resume() == chunk[chunk.len() - 1].0,
        chunk.len() == 0 ==> after.resume() == before.resume(),
        after.started(),
        after.done() <==> chunk.len() < 4096,
{
    if chunk.len() > 0 {
        assert(chunk.skip(1) =~= chunk.drop_first());
    }
}

/// Postings can be placed exactly where each has a document that the remap has an entry for, and, where
/// it stays, positions that go up.
pub proof fn postings_in_order_can_be_placed(postings: Seq<Posting>, remap: Seq<Option<FtsDocId>>)
    ensures
        placeable(postings, remap) <==> {
            &&& forall|k: int| 0 <= k < postings.len() ==> (#[trigger] postings[k]).doc < remap.len()
            &&& forall|k: int, i: int, j: int|
                0 <= k < postings.len() && remap[postings[k].doc as int] is Some && 0 <= i < j
                    < postings[k].positions@.len() ==> #[trigger] postings[k].positions@[i]
                    < #[trigger] postings[k].positions@[j]
        },
{
}

/// A value announces the length it has, where it has one, and nothing otherwise.
pub proof fn values_announce_their_lengths(offset: u64, len: u32, packed: u64)
    ensures
        hinted_bytes(FstValue::Pfor { postings_offset: offset, postings_length_hint: Some(len) }) == len,
        hinted_bytes(FstValue::Pfor { postings_offset: offset, postings_length_hint: None }) == 0,
        hinted_bytes(FstValue::Packed(packed)) == 0,
{
}

/// What values announce is added up.
pub proof fn announced_bytes_are_added_up(inputs: Seq<(usize, FstValue)>)
    ensures
        total_hinted(inputs) == inputs.fold_left(0nat, |n: nat, i: (usize, FstValue)| n + hinted_bytes(i.1)),
    decreases inputs.len(),
{
    let added = |n: nat, i: (usize, FstValue)| n + hinted_bytes(i.1);
    if inputs.len() > 0 {
        announced_bytes_are_added_up(inputs.drop_last());
        assert(inputs.fold_left(0nat, added) == added(inputs.drop_last().fold_left(0nat, added), inputs.last()));
    }
}

/// The inputs of terms are those of each in turn.
pub proof fn inputs_stand_term_by_term(terms: Seq<MergedTerm>)
    ensures
        inputs_of(terms) == terms.map_values(|t: MergedTerm| t.1).flatten(),
    decreases terms.len(),
{
    let each = |t: MergedTerm| t.1;
    let all = terms.map_values(each);
    all.lemma_flatten_and_flatten_alt_are_equivalent();
    if terms.len() > 0 {
        inputs_stand_term_by_term(terms.drop_last());
        let fewer = terms.drop_last().map_values(each);
        fewer.lemma_flatten_and_flatten_alt_are_equivalent();
        assert(all.drop_last() =~= fewer);
        assert(all.flatten_alt() == fewer.flatten_alt() + all.last());
    }
}

/// A batch is within its limits where it has no more than one term, or neither more terms nor more
/// announced bytes than they let it.
pub proof fn batches_keep_to_both_limits(terms: Seq<MergedTerm>, limits: BatchLimits)
    ensures
        within_limits(terms, limits) <==> terms.len() <= 1 || terms.len() <= limits.terms && terms.map_values(
            |t: MergedTerm| t.1,
        ).flatten().fold_left(0nat, |n: nat, i: (usize, FstValue)| n + hinted_bytes(i.1))
            <= limits.posting_bytes,
{
    inputs_stand_term_by_term(terms);
    announced_bytes_are_added_up(inputs_of(terms));
}

/// A batch is full with as many terms, or as many announced bytes, as its limits let it have, and has
/// room for another's inputs where they do not take it over.
pub proof fn batches_fill_up_to_either_limit(batch: Batch, next: Batch, limits: BatchLimits)
    ensures
        batch.is_full(limits) <==> batch@.len() >= limits.terms || batch.inputs().fold_left(
            0nat,
            |n: nat, i: (usize, FstValue)| n + hinted_bytes(i.1),
        ) >= limits.posting_bytes,
        batch.room_for(next, limits) <==> batch.inputs().fold_left(
            0nat,
            |n: nat, i: (usize, FstValue)| n + hinted_bytes(i.1),
        ) + next.inputs().fold_left(0nat, |n: nat, i: (usize, FstValue)| n + hinted_bytes(i.1))
            <= limits.posting_bytes,
{
    announced_bytes_are_added_up(batch.inputs());
    announced_bytes_are_added_up(next.inputs());
}

/// There are as many tasks as it takes to hold every term: one fewer would not.
pub proof fn tasks_are_as_many_as_it_takes(n: int, size: nat)
    requires
        0 < size,
    ensures
        n <= 0 ==> tasks_in(n, size) == 0,
        n > 0 ==> n <= tasks_in(n, size) * size < n + size,
    decreases
        if n > 0 {
            n
        } else {
            0
        },
{
    if n > 0 {
        tasks_are_as_many_as_it_takes(n - size, size);
        let rest = tasks_in(n - size, size) as int;
        let s = size as int;
        assert((1 + rest) * s == s + rest * s) by (nonlinear_arith);
        assert(n <= size ==> rest == 0);
        assert(rest == 0 ==> rest * s == 0) by (nonlinear_arith);
        assert(tasks_in(n, size) * size == (1 + rest) * s);
    }
}

/// As many tasks run at once as there are, or as there are threads.
pub proof fn tasks_at_once_are_threads_at_most(n_terms: nat, task_terms: nat, threads: nat)
    ensures
        at_once(n_terms, task_terms, threads) <= threads,
        at_once(n_terms, task_terms, threads) <= tasks_in(n_terms as int, task_terms),
        at_once(n_terms, task_terms, threads) == threads || at_once(n_terms, task_terms, threads) == tasks_in(
            n_terms as int,
            task_terms,
        ),
{
}

/// The most tasks of a batch are those of all its terms, or of as many as it may have, which is one at
/// the least.
pub proof fn most_tasks_are_those_of_a_full_batch(limits: BatchLimits, n: nat)
    ensures
        n <= 1 || n <= limits.terms ==> most_tasks(limits, n) == tasks_in(n as int, limits.task_terms as nat),
        n > 1 && limits.terms == 0 ==> most_tasks(limits, n) == tasks_in(1, limits.task_terms as nat),
        n > limits.terms > 0 ==> most_tasks(limits, n) == tasks_in(
            limits.terms as int,
            limits.task_terms as nat,
        ),
{
}

/// Cuts stand `size` apart, from the first at 0 on, and the last at the end.
pub proof fn cuts_stand_apart(cuts: Seq<usize>, n: int, size: int, i: int)
    requires
        size > 0,
        is_cut(cuts, n, size),
        0 <= i < cuts.len(),
    ensures
        i < cuts.len() - 1 ==> cuts[i] == i * size && cuts[i] < n,
        i == cuts.len() - 1 ==> cuts[i] == n && n <= i * size,
        i == cuts.len() - 1 && i > 0 ==> (i - 1) * size < n,
    decreases i,
{
    if i > 0 {
        cuts_stand_apart(cuts, n, size, i - 1);
        assert(is_run(cuts, i - 1, n, size));
        assert(i * size == (i - 1) * size + size) by (nonlinear_arith);
        assert(cuts[i - 1] < cuts[i]);
    } else {
        assert(i * size == 0) by (nonlinear_arith)
            requires
                i == 0,
        ;
    }
    if i < cuts.len() - 1 {
        assert(cuts[i] < cuts[cuts.len() - 1]);
    }
}

/// A failed read is told of in its own words, after what was being done.
pub proof fn a_failed_read_is_told_of(e: FtsError, error: BuildError)
    ensures
        is_read_error(e, error) <==> (error matches BuildError::Io(message) && message@
            == "fts sorted merge: "@ + e.message@),
{
}

/// A term that is not text is told of as such.
pub proof fn a_term_that_is_not_text_is_told_of(error: BuildError)
    ensures
        is_non_utf8_error(error) <==> (error matches BuildError::Io(message) && message@
            == "fts sorted merge: non-utf8 term"@),
{
}

/// The terms of records are that of each, in turn.
pub proof fn records_have_their_terms<T>(records: Seq<Record<T>>)
    ensures
        terms_of(records) == records.map_values(|r: Record<T>| r.term),
{
    assert(terms_of(records) =~= records.map_values(|r: Record<T>| r.term));
}

/// What is written of records is the output of each that has one, with its term, in turn.
pub proof fn outputs_are_written_in_turn<T>(records: Seq<Record<T>>)
    ensures
        outputs(records) == records.filter(|r: Record<T>| r.output is Some).map_values(
            |r: Record<T>| (r.term.0, r.output->0),
        ),
    decreases records.len(),
{
    reveal(Seq::filter);
    let has = |r: Record<T>| r.output is Some;
    let out = |r: Record<T>| (r.term.0, r.output->0);
    if records.len() > 0 {
        outputs_are_written_in_turn(records.drop_last());
    }
    assert(outputs(records) =~= records.filter(has).map_values(out));
}

/// A worker encodes the postings of each record that it took and that has an output, in turn.
pub proof fn a_worker_encodes_what_it_took<T>(records: Seq<Record<T>>, who: Seq<int>, w: int)
    requires
        who.len() == records.len(),
    ensures
        share(records, who, w) == Seq::new(records.len(), |k: int| (records[k], who[k])).filter(
            |p: (Record<T>, int)| p.0.output is Some && p.1 == w,
        ).map_values(|p: (Record<T>, int)| (p.0.kept, p.0.output->0)),
    decreases records.len(),
{
    reveal(Seq::filter);
    let took = Seq::new(records.len(), |k: int| (records[k], who[k]));
    let mine = |p: (Record<T>, int)| p.0.output is Some && p.1 == w;
    let step = |p: (Record<T>, int)| (p.0.kept, p.0.output->0);
    if records.len() > 0 {
        let (fewer, before) = (records.drop_last(), who.drop_last());
        a_worker_encodes_what_it_took(fewer, before, w);
        assert(took.drop_last() =~= Seq::new(fewer.len(), |k: int| (fewer[k], before[k])));
    }
    assert(share(records, who, w) =~= took.filter(mine).map_values(step));
}

/// All encodings of records are of each that has an output, in turn.
pub proof fn encodings_are_of_those_with_an_output<T>(records: Seq<Record<T>>)
    ensures
        steps_of(records) == records.filter(|r: Record<T>| r.output is Some).map_values(
            |r: Record<T>| (r.kept, r.output->0),
        ),
    decreases records.len(),
{
    reveal(Seq::filter);
    let has = |r: Record<T>| r.output is Some;
    let step = |r: Record<T>| (r.kept, r.output->0);
    if records.len() > 0 {
        let fewer = records.drop_last();
        encodings_are_of_those_with_an_output(fewer);
        assert(by_one(records.len(), 0).drop_last() =~= by_one(fewer.len(), 0));
        assert(by_one(records.len(), 0).last() == 0);
    }
    assert(steps_of(records) =~= records.filter(has).map_values(step));
}

/// Outputs are written one by one, each under its term's text, and the sink that one write leaves is
/// the one that the next is handed.
pub proof fn a_sink_goes_from_write_to_write<'a, T, W, F: Fn(W, &str, T) -> (W, Result<(), BuildError>)>(
    write: F,
    outs: Seq<(Seq<u8>, T)>,
    from: W,
    to: W,
) -> (r: (Seq<W>, Seq<&'a str>))
    requires
        written(write, outs, from, to),
    ensures
        r.0.len() == outs.len() + 1,
        r.1.len() == outs.len(),
        r.0[0] == from,
        r.0[outs.len() as int] == to,
        forall|k: int|
            0 <= k < outs.len() ==> encode_utf8((#[trigger] r.1[k])@) == outs[k].0 && write.ensures(
                (r.0[k], r.1[k], outs[k].1),
                (r.0[k + 1], Ok(())),
            ),
{
    let sinks = choose|sinks: Seq<W>| #[trigger]
        writes_through(write, outs, sinks) && sinks.first() == from && sinks.last() == to;
    let texts = Seq::new(
        outs.len(),
        |k: int| choose|text: &'a str|
            encode_utf8(text@) == outs[k].0 && #[trigger] write.ensures(
                (sinks[k], text, outs[k].1),
                (sinks[k + 1], Ok(())),
            ),
    );
    assert forall|k: int| 0 <= k < outs.len() implies encode_utf8((#[trigger] texts[k])@) == outs[k].0
        && write.ensures((sinks[k], texts[k], outs[k].1), (sinks[k + 1], Ok(()))) by {
        assert(writes(write, outs[k].0, outs[k].1, sinks[k], sinks[k + 1], Ok(())));
    }
    (sinks, texts)
}

/// Nothing is left to walk exactly where every input has been walked past its last entry.
pub proof fn a_walk_ends_past_every_last_entry(dicts: Seq<Seq<Entry>>, pos: Seq<int>)
    requires
        within(dicts, pos),
    ensures
        exhausted(dicts, pos) <==> forall|i: int| 0 <= i < dicts.len() ==> #[trigger] pos[i] == dicts[i].len(),
{
    if exhausted(dicts, pos) {
        assert forall|i: int| 0 <= i < dicts.len() implies #[trigger] pos[i] == dicts[i].len() by {
            assert(!has_head(dicts, pos, i));
            assert(0 <= pos[i] <= dicts[i].len());
        }
    } else {
        let i = choose|i: int| has_head(dicts, pos, i);
        assert(pos[i] < dicts[i].len());
    }
}

/// The next term is one that an input stands at, and no input stands at an earlier one.
pub proof fn the_next_term_is_the_first_that_stands(dicts: Seq<Seq<Entry>>, pos: Seq<int>) -> (at: int)
    requires
        within(dicts, pos),
        !exhausted(dicts, pos),
    ensures
        0 <= at < dicts.len(),
        pos[at] < dicts[at].len(),
        dicts[at][pos[at]].0 == next_term(dicts, pos),
        forall|i: int|
            0 <= i < dicts.len() && #[trigger] pos[i] < dicts[i].len() ==> !term_lt(
                dicts[i][pos[i]].0,
                next_term(dicts, pos),
            ),
{
    lemma_next_exists(dicts, pos);
    let term = next_term(dicts, pos);
    let at = choose|i: int| i < dicts.len() && #[trigger] stands_at(dicts, pos, term, i);
    assert(is_next(dicts, pos, term));
    assert forall|i: int| 0 <= i < dicts.len() && #[trigger] pos[i] < dicts[i].len() implies !term_lt(
        dicts[i][pos[i]].0,
        term,
    ) by {
        assert(0 <= pos[i] <= dicts[i].len());
        assert(has_head(dicts, pos, i));
    }
    at
}

/// The holders of a term are the inputs that stand at it, each with the value it stands at, in input
/// order.
pub proof fn holders_stand_at_their_term(dicts: Seq<Seq<Entry>>, pos: Seq<int>, term: Seq<u8>, n: nat)
    requires
        n <= dicts.len(),
    ensures
        holders(dicts, pos, term, n as int) == Seq::new(n, |i: int| i).filter(
            |i: int| 0 <= pos[i] < dicts[i].len() && dicts[i][pos[i]].0 == term,
        ).map_values(|i: int| (i as usize, dicts[i][pos[i]].1)),
    decreases n,
{
    reveal(Seq::filter);
    let all = Seq::new(n, |i: int| i);
    let stands = |i: int| 0 <= pos[i] < dicts[i].len() && dicts[i][pos[i]].0 == term;
    let holds = |i: int| (i as usize, dicts[i][pos[i]].1);
    if n > 0 {
        holders_stand_at_their_term(dicts, pos, term, (n - 1) as nat);
        assert(all.drop_last() =~= Seq::new((n - 1) as nat, |i: int| i));
    }
    assert(holders(dicts, pos, term, n as int) =~= all.filter(stands).map_values(holds));
}

/// Once a term was walked each input that stood at it stands at its next entry, and no other has moved.
pub proof fn holders_move_on_by_one(dicts: Seq<Seq<Entry>>, pos: Seq<int>, term: Seq<u8>, i: int)
    requires
        pos.len() == dicts.len(),
        0 <= i < dicts.len(),
    ensures
        ({
            let after = moved_on(dicts, pos, term, dicts.len() as int);
            &&& after.len() == pos.len()
            &&& 0 <= pos[i] < dicts[i].len() && dicts[i][pos[i]].0 == term ==> after[i] == pos[i] + 1
            &&& !(0 <= pos[i] < dicts[i].len() && dicts[i][pos[i]].0 == term) ==> after[i] == pos[i]
        }),
{
}

/// Terms are walked one after another, each from where the one before left the inputs, and the first
/// from the first entry of each.
pub proof fn terms_are_walked_in_turn(dicts: Seq<Seq<Entry>>, pos: Seq<int>, m: nat)
    ensures
        after_terms(dicts, pos, 0) == pos,
        after_terms(dicts, pos, m + 1) == moved_on(
            dicts,
            after_terms(dicts, pos, m),
            next_term(dicts, after_terms(dicts, pos, m)),
            dicts.len() as int,
        ),
        first_terms(dicts, pos, m + 1) == first_terms(dicts, pos, m).push(
            (
                next_term(dicts, after_terms(dicts, pos, m)),
                holders(
                    dicts,
                    after_terms(dicts, pos, m),
                    next_term(dicts, after_terms(dicts, pos, m)),
                    dicts.len() as int,
                ),
            ),
        ),
        first_terms(dicts, pos, 0).len() == 0,
        at_first(m).len() == m,
        forall|i: int| 0 <= i < m ==> #[trigger] at_first(m)[i] == 0,
{
    assert(first_terms(dicts, pos, m + 1) =~= first_terms(dicts, pos, m).push(nth_term(dicts, pos, m)));
}

/// The terms of a batch at hand have no inputs but those that are walked, and the batch no other
/// inputs.
pub proof fn a_batch_at_hand_holds_its_terms_inputs(batch: Batch, n: nat)
    ensures
        at_hand(batch, n) <==> {
            &&& batch.wf()
            &&& batch.inputs() == batch@.map_values(|t: MergedTerm| t.1).flatten()
            &&& forall|k: int, h: int|
                0 <= k < batch@.len() && 0 <= h < batch@[k].1.len() ==> (#[trigger] batch@[k].1[h]).0 < n
        },
{
    inputs_stand_term_by_term(batch@);
    if at_hand(batch, n) {
        assert forall|k: int, h: int| 0 <= k < batch@.len() && 0 <= h < batch@[k].1.len() implies (
        #[trigger] batch@[k].1[h]).0 < n by {
            assert(inputs_below(batch@[k].1, n));
        }
    }
}

/// With entries at hand the first of them is handed out; with none, and none left to read, nothing is.
pub proof fn entries_are_handed_out_in_turn<R: FtsReader>(
    before: TermChunks<'_, R>,
    r: Result<Option<(Vec<u8>, FstValue)>, FtsError>,
    after: TermChunks<'_, R>,
)
    requires
        before.hands_out(r, &after),
    ensures
        after.fts() == before.fts(),
        after.fst_bytes() == before.fst_bytes(),
        after.column_id() == before.column_id(),
        after.resume() == before.resume(),
        after.started() == before.started(),
        after.done() == before.done(),
        before.pending().len() > 0 ==> (r matches Ok(Some(entry)) && entry.0@ == before.pending()[0].0 && entry.1
            == before.pending()[0].1) && after.pending() == before.pending().skip(1),
        before.pending().len() == 0 ==> (r matches Ok(None)) && before.done() && after.pending().len() == 0,
{
    if before.pending().len() > 0 {
        assert(before.pending().skip(1) =~= before.pending().drop_first());
    }
}

/// The walk goes on for so many terms exactly where an input has an entry left before each of them.
pub proof fn a_walk_goes_on_while_entries_are_left(dicts: Seq<Seq<Entry>>, pos: Seq<int>, m: nat)
    ensures
        goes_on(dicts, pos, m) <==> forall|j: int|
            0 <= j < m ==> !#[trigger] exhausted(dicts, after_terms(dicts, pos, j as nat)),
        within(dicts, pos) <==> pos.len() == dicts.len() && forall|i: int|
            0 <= i < dicts.len() ==> 0 <= #[trigger] pos[i] <= dicts[i].len(),
{
}

/// A walk that has read nothing has nothing at hand, and starts from the first term that there is; one
/// that stands at entry `k` has handed out those before it, and has the next ones at hand.
pub proof fn a_walk_stands_between_what_it_handed_out_and_what_is_left<R: FtsReader>(
    walk: TermChunks<'_, R>,
    dict: Seq<Entry>,
    k: int,
)
    ensures
        walk.at_start() <==> walk.pending().len() == 0 && walk.resume().len() == 0 && !walk.started()
            && !walk.done(),
        walk.at_start() ==> walk.at(dict, 0),
        walk.at(dict, k) ==> 0 <= k && k + walk.pending().len() <= dict.len() && forall|i: int|
            0 <= i < walk.pending().len() ==> #[trigger] walk.pending()[i] == dict[k + i],
        walk.at(dict, k) && walk.done() ==> k + walk.pending().len() == dict.len(),
{
    if walk.at_start() {
        assert(walk.pending() =~= dict.subrange(0, 0));
    }
}

/// Two walks are over the same where they read the same column of the same bytes from the same index, and
/// stand at the same place where they also have the same left.
pub proof fn walks_over_the_same<R: FtsReader>(a: TermChunks<'_, R>, b: TermChunks<'_, R>, dict: Seq<Entry>)
    ensures
        a.same_walk(&b) <==> a.fts() == b.fts() && a.fst_bytes() == b.fst_bytes() && a.column_id()
            == b.column_id(),
        a.same_place(&b) <==> a.same_walk(&b) && a.pending() == b.pending() && a.resume() == b.resume()
            && a.started() == b.started() && a.done() == b.done(),
        a.walks(dict) <==> is_dictionary(a.fts(), &a.fst_bytes(), a.column_id(), dict),
{
}

} // verus!
